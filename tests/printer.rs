use bread_scheme::printer::{print, Arena, Object};

fn printed(arena: &Arena, v: usize) -> Vec<u8> {
    let mut out = Vec::new();
    print(arena, v, &mut out);
    out
}

fn store_int(arena: &mut Arena, n: i64) -> usize {
    arena.store(Object::Int64(n))
}

#[test]
fn print_nil() {
    let mut arena = Arena::new();
    let nil = arena.store(Object::Nil);
    assert_eq!(printed(&arena, nil), b"()".to_vec());
}

#[test]
fn print_atoms() {
    let mut arena = Arena::new();
    let n = store_int(&mut arena, -5);
    let sym = arena.store(Object::Symbol(b"foo".to_vec()));
    let s = arena.store(Object::String(b"hi".to_vec()));
    assert_eq!(printed(&arena, n), b"-5".to_vec());
    assert_eq!(printed(&arena, sym), b"foo".to_vec());
    assert_eq!(printed(&arena, s), b"\"hi\"".to_vec());
}

#[test]
fn print_integers_in_decimal() {
    let mut arena = Arena::new();
    let zero = store_int(&mut arena, 0);
    let big = store_int(&mut arena, 1234567890);
    let min = store_int(&mut arena, i64::MIN);
    let max = store_int(&mut arena, i64::MAX);
    assert_eq!(printed(&arena, zero), b"0".to_vec());
    assert_eq!(printed(&arena, big), b"1234567890".to_vec());
    assert_eq!(printed(&arena, min), b"-9223372036854775808".to_vec());
    assert_eq!(printed(&arena, max), b"9223372036854775807".to_vec());
}

#[test]
fn print_string_without_escaping() {
    let mut arena = Arena::new();
    let s = arena.store(Object::String(b"a\"b\\".to_vec()));
    assert_eq!(printed(&arena, s), b"\"a\"b\\\"".to_vec());
}

#[test]
fn print_proper_list() {
    let mut arena = Arena::new();
    let nil = arena.store(Object::Nil);
    let three = store_int(&mut arena, 3);
    let two = store_int(&mut arena, 2);
    let one = store_int(&mut arena, 1);
    let c3 = arena.store(Object::Cons(three, nil));
    let c2 = arena.store(Object::Cons(two, c3));
    let c1 = arena.store(Object::Cons(one, c2));
    assert_eq!(printed(&arena, c1), b"(1 2 3)".to_vec());
}

#[test]
fn print_improper_pair() {
    let mut arena = Arena::new();
    let one = store_int(&mut arena, 1);
    let two = store_int(&mut arena, 2);
    let pair = arena.store(Object::Cons(one, two));
    assert_eq!(printed(&arena, pair), b"(1 . 2)".to_vec());
}

#[test]
fn print_improper_list() {
    let mut arena = Arena::new();
    let one = store_int(&mut arena, 1);
    let two = store_int(&mut arena, 2);
    let sym = arena.store(Object::Symbol(b"end".to_vec()));
    let tail = arena.store(Object::Cons(two, sym));
    let list = arena.store(Object::Cons(one, tail));
    assert_eq!(printed(&arena, list), b"(1 2 . end)".to_vec());
}

#[test]
fn print_nested_list() {
    let mut arena = Arena::new();
    let nil = arena.store(Object::Nil);
    let one = store_int(&mut arena, 1);
    let two = store_int(&mut arena, 2);
    let inner = arena.store(Object::Cons(one, nil));
    let rest = arena.store(Object::Cons(two, nil));
    let outer = arena.store(Object::Cons(inner, rest));
    assert_eq!(printed(&arena, outer), b"((1) 2)".to_vec());
}

#[test]
fn print_shared_cell_twice() {
    let mut arena = Arena::new();
    let nil = arena.store(Object::Nil);
    let one = store_int(&mut arena, 1);
    let shared = arena.store(Object::Cons(one, nil));
    let rest = arena.store(Object::Cons(shared, nil));
    let list = arena.store(Object::Cons(shared, rest));
    assert_eq!(printed(&arena, list), b"((1) (1))".to_vec());
}

#[test]
fn print_list_ending_in_eof() {
    let mut arena = Arena::new();
    let one = store_int(&mut arena, 1);
    let two = store_int(&mut arena, 2);
    let eof = arena.store(Object::Eof);
    let pair = arena.store(Object::Cons(one, eof));
    let list = arena.store(Object::Cons(two, pair));
    assert_eq!(printed(&arena, list), b"(2 1 . )".to_vec());
}

#[test]
fn print_eof_writes_nothing() {
    let mut arena = Arena::new();
    let eof = arena.store(Object::Eof);
    let mut out = b"x".to_vec();
    print(&arena, eof, &mut out);
    assert_eq!(out.len(), 1);
    assert_eq!(printed(&arena, eof).len(), 0);
}

#[test]
fn print_appends_to_output() {
    let mut arena = Arena::new();
    let nil = arena.store(Object::Nil);
    assert_eq!(arena.len(), 1);
    assert_eq!(arena.get(nil), &Object::Nil);
    let mut out = b"> ".to_vec();
    print(&arena, nil, &mut out);
    assert_eq!(out, b"> ()".to_vec());
}
