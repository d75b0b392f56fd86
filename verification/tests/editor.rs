use allways::add_all::get_public_names;
use allways::do_it_allways;
use allways::order::sort_names;

#[test]
fn public_names() {
    let src = "
C = 2
a = 1
def foo():
    ...
__all__ = []
_fooey = 3
bar = 3
";
    assert_eq!(
        get_public_names(src).unwrap(),
        vec![
            String::from("a"),
            String::from("bar"),
            String::from("C"),
            String::from("foo"),
        ]
    );
}

#[test]
fn name_sort() {
    let mut names = vec![
        String::from("foo_car"),
        String::from("A"),
        String::from("foo_bar"),
        String::from("foo"),
        String::from("c"),
        String::from("bAba"),
        String::from("b"),
        String::from("B"),
        String::from("bAbA"),
        String::from("C"),
    ];
    sort_names(&mut names);
    assert_eq!(
        names,
        vec![
            String::from("A"),
            String::from("B"),
            String::from("b"),
            String::from("bAbA"),
            String::from("bAba"),
            String::from("C"),
            String::from("c"),
            String::from("foo"),
            String::from("foo_bar"),
            String::from("foo_car"),
        ]
    );
}

#[test]
fn insert_new_allways_block_test() {
    let src = "
A = 1
def foo():
    ...
";
    assert_eq!(
        do_it_allways(src).unwrap().unwrap().as_str(),
        "
A = 1
def foo():
    ...


# allways: start
__all__ = [
    \"A\",
    \"foo\",
]
# allways: end
"
    );
}

#[test]
fn update_allways_block_without_tail() {
    let src = "
A = 1
def foo():
    ...
class Fooey:
    ...


# allways: start
__all__ = [
    \"A\",
    \"foo\",
]
# allways: end
";
    assert_eq!(
        do_it_allways(src).unwrap().unwrap().as_str(),
        "
A = 1
def foo():
    ...
class Fooey:
    ...


# allways: start
__all__ = [
    \"A\",
    \"foo\",
    \"Fooey\",
]
# allways: end
"
    );
}

#[test]
fn update_allways_block_with_tail() {
    let src = "
A = 1
def foo():
    ...
class Fooey:
    ...


# allways: start
__all__ = [
    \"A\",
    \"foo\",
]
# allways: end

import sys, os
";
    assert_eq!(
        do_it_allways(src).unwrap().unwrap().as_str(),
        "
A = 1
def foo():
    ...
class Fooey:
    ...


# allways: start
__all__ = [
    \"A\",
    \"foo\",
    \"Fooey\",
    \"os\",
    \"sys\",
]
# allways: end

import sys, os
"
    );
}

#[test]
fn no_public_names_no_output() {
    let src = "
_hidden = 1
def _also_hidden():
    ...
";
    assert!(do_it_allways(src).unwrap().is_none());
}

#[test]
fn no_names_at_all_no_output() {
    let src = "
print('nothing bound here')
";
    assert!(do_it_allways(src).unwrap().is_none());
}

#[test]
fn parse_error_from_transform() {
    let src = "
def broken(:
";
    assert!(do_it_allways(src).is_err());
}

#[test]
fn transform_is_idempotent_on_fresh_insert() {
    let src = "
A = 1
def foo():
    ...
";
    let once = do_it_allways(src).unwrap().unwrap();
    let twice = do_it_allways(&once).unwrap().unwrap();
    assert_eq!(once, twice);
}

#[test]
fn transform_is_idempotent_on_update() {
    let src = "
A = 1


# allways: start
__all__ = [
    \"stale\",
]
# allways: end

import sys
";
    let once = do_it_allways(src).unwrap().unwrap();
    let twice = do_it_allways(&once).unwrap().unwrap();
    assert_eq!(once, twice);
}

#[test]
fn reversed_markers_are_ignored() {
    let src = "
A = 1
# allways: end
# allways: start
";
    let out = do_it_allways(src).unwrap().unwrap();
    assert!(out.starts_with(src));
    assert!(out.ends_with("# allways: start\n__all__ = [\n    \"A\",\n]\n# allways: end\n"));
}

#[test]
fn marker_lines_match_after_trailing_whitespace() {
    let src = "A = 1
# allways: start
__all__ = []
# allways: end\t
tail = 2
";
    let out = do_it_allways(src).unwrap().unwrap();
    assert_eq!(
        out,
        "A = 1
# allways: start
__all__ = [
    \"A\",
    \"tail\",
]
# allways: end
tail = 2
"
    );
}

#[test]
fn private_names_filtered_public_kept() {
    let src = "
_fooey = 1
fooey = 2
";
    assert_eq!(get_public_names(src).unwrap(), vec![String::from("fooey")]);
}

#[test]
fn empty_source_no_output() {
    assert!(do_it_allways("").unwrap().is_none());
}

#[test]
fn no_public_names_even_with_existing_block() {
    let src = "
_private = 1

# allways: start
__all__ = [
    \"stale\",
]
# allways: end
";
    assert!(do_it_allways(src).unwrap().is_none());
}
