use allways::NameParser;

fn parsed_names(src: &str) -> Vec<String> {
    let mut names = NameParser::from_source(src).unwrap().into_names();
    names.sort();
    names
}

fn assert_src_parses_to_expected(src: &str, expected_names: Vec<&str>) {
    let mut expected: Vec<String> = expected_names.into_iter().map(|s| s.to_string()).collect();
    expected.sort();
    assert_eq!(parsed_names(src), expected);
}

#[test]
fn basic_expressions() {
    let src = "
bar()
x
3 * y
";
    assert_src_parses_to_expected(src, vec![]);
}

#[test]
fn basic_import() {
    let src = "
import sys
";
    assert_src_parses_to_expected(src, vec!["sys"]);
}

#[test]
fn import_multi() {
    let src = "
import sys, os
";
    assert_src_parses_to_expected(src, vec!["sys", "os"]);
}

#[test]
fn import_alias() {
    let src = "
import sys as foo
";
    assert_src_parses_to_expected(src, vec!["foo"]);
}

#[test]
fn basic_from_import() {
    let src = "
from foo import bar
";
    assert_src_parses_to_expected(src, vec!["bar"]);
}

#[test]
fn from_import_multi() {
    let src = "
from foo import (
    bar,
    baz,
)
";
    assert_src_parses_to_expected(src, vec!["bar", "baz"]);
}

#[test]
fn from_import_alias() {
    let src = "
from foo import bar as baz
";
    assert_src_parses_to_expected(src, vec!["baz"]);
}

#[test]
fn basic_function() {
    let src = "
def foo(x: int) -> str | None:
    z = 3
";
    assert_src_parses_to_expected(src, vec!["foo"]);
}

#[test]
fn async_function() {
    let src = "
async def foo():
    ...
";
    assert_src_parses_to_expected(src, vec!["foo"]);
}

#[test]
fn basic_class() {
    let src = "
class Foo(Bar, Baz):
    x = 10
    def bar(self, y: int) -> list[int]:
        ...
";
    assert_src_parses_to_expected(src, vec!["Foo"]);
}

#[test]
fn basic_assignment() {
    let src = "
x = 1
";
    assert_src_parses_to_expected(src, vec!["x"]);
}

#[test]
fn multi_target_assignment() {
    let src = "
foo = bar = baz = 1
";
    assert_src_parses_to_expected(src, vec!["foo", "bar", "baz"]);
}

#[test]
fn unpack_assignment() {
    let src = "
foo, bar = 1, 2
";
    assert_src_parses_to_expected(src, vec!["foo", "bar"]);
}

#[test]
fn augmented_assignment() {
    let src = "
foo += 1
";
    assert_src_parses_to_expected(src, vec!["foo"]);
}

#[test]
fn annotated_assignment() {
    let src = "
foo: int = 1
";
    assert_src_parses_to_expected(src, vec!["foo"]);
}

#[test]
fn basic_if() {
    let src = "
if bar:
    A = 1
    def fooey():
        ...
";
    assert_src_parses_to_expected(src, vec!["A", "fooey"]);
}

#[test]
fn elif_else() {
    let src = "
if bar:
    A = 1
elif fooey:
    B = 2
else:
    C = 3
";
    assert_src_parses_to_expected(src, vec!["A", "B", "C"]);
}

#[test]
fn walrus_if() {
    let src = "
if (foo := bar()):
    ...
";
    assert_src_parses_to_expected(src, vec!["foo"]);
}

#[test]
fn basic_while() {
    let src = "
while True:
    x = []
";
    assert_src_parses_to_expected(src, vec!["x"]);
}

#[test]
fn walrus_while() {
    let src = "
while (foo := bar()):
    ...
";
    assert_src_parses_to_expected(src, vec!["foo"]);
}

#[test]
fn basic_for() {
    let src = "
for foo in bar:
    x = 3
";
    assert_src_parses_to_expected(src, vec!["foo", "x"]);
}

#[test]
fn unpack_for() {
    let src = "
for foo, bar in baz:
    ...
";
    assert_src_parses_to_expected(src, vec!["foo", "bar"]);
}

#[test]
fn async_for() {
    let src = "
async for foo in bar:
    ...
";
    assert_src_parses_to_expected(src, vec!["foo"]);
}

#[test]
fn basic_with() {
    let src = "
with foo(), bar() as baz, xy as (x, y):
    fooey = 3
";
    assert_src_parses_to_expected(src, vec!["baz", "x", "y", "fooey"]);
}

#[test]
fn async_with() {
    let src = "
async with foo as bar:
    fooey = 3
";
    assert_src_parses_to_expected(src, vec!["bar", "fooey"]);
}

#[test]
fn basic_del() {
    let src = "
x, y = 1, 2
del y
";
    assert_src_parses_to_expected(src, vec!["x"]);
}

#[test]
fn reassigned_after_del() {
    let src = "
x = 1
del x
x = 1
";
    assert_src_parses_to_expected(src, vec!["x"]);
}

#[test]
fn multi_target_del() {
    let src = "
x, y, z = 1, 2, 3
del x, z
";
    assert_src_parses_to_expected(src, vec!["y"]);
}

#[test]
fn basic_try_except_else_finally() {
    let src = "
try:
    intry = 1
except ValueError:
    inexcept = 2
except (TypeError, AttributeError):
    inexcept2 = 2.5
else:
    inelse = 3
finally:
    infinally = 4
";
    assert_src_parses_to_expected(
        src,
        vec!["intry", "inexcept", "inexcept2", "inelse", "infinally"],
    );
}

#[test]
fn ignore_try_expection_capture() {
    let src = "
try:
    foo()
except ValueError as e:
    ...
";
    assert_src_parses_to_expected(src, vec![]);
}

#[test]
fn comprehension_does_not_leak() {
    let src = "
[foo for foo in bar]
";
    assert_src_parses_to_expected(src, vec![]);
}

#[test]
fn putting_it_all_together() {
    let src = "
import sys, os
import sys as foo

from foo import (
    bar as baz,
    alpha
)

def my_func():
    ...

class MyClass:
    ...

MYCONSTANT = 1
";

    assert_src_parses_to_expected(
        src,
        vec![
            "sys",
            "os",
            "foo",
            "baz",
            "alpha",
            "my_func",
            "MyClass",
            "MYCONSTANT",
        ],
    );
}

#[test]
fn star_import_not_supported_yet() {
    let src = "
from submodule import *
";
    assert_src_parses_to_expected(src, vec![]);
}

#[test]
fn truthy_falsey_checks_not_supported_yet() {
    let src = "
if True:
    ...
else:
    x = 1

if False:
    y = 2
";
    assert_src_parses_to_expected(src, vec!["x", "y"]);
}

#[test]
fn simple_raise_conditions_not_checked() {
    let src = "
try:
    raise ValueError('Fooey!')
except TypeError:
    A = 1
";
    assert_src_parses_to_expected(src, vec!["A"]);
}

#[test]
fn unreachable_code_not_supported_yet() {
    let src = "
assert False
x = 1
";
    assert_src_parses_to_expected(src, vec!["x"]);
}

#[test]
fn parse_error_is_reported() {
    let src = "
def broken(:
";
    assert!(NameParser::from_source(src).is_err());
}

#[test]
fn collected_names_are_distinct() {
    let src = "
x = 1
x = 2
x += 3
";
    assert_src_parses_to_expected(src, vec!["x"]);
}
