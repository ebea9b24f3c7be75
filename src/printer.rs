//! The printed form of values held in an [`Arena`].
use vstd::prelude::*;

verus! {

/// A value of the interpreter. A pair refers to its two parts by their
/// places in the [`Arena`] that holds it, so that parts can be shared.
#[derive(Debug, PartialEq, Eq)]
pub enum Object {
    Cons(usize, usize),
    Nil,
    Symbol(Vec<u8>),
    Int64(i64),
    String(Vec<u8>),
    Eof,
}

/// ASCII codes of the punctuation that printing writes.
pub const OPEN: u8 = 40;
pub const CLOSE: u8 = 41;
pub const SPACE: u8 = 32;
pub const DOT: u8 = 46;
pub const QUOTE: u8 = 34;
pub const MINUS: u8 = 45;
pub const ZERO: u8 = 48;

/// Storage for values. Every pair refers only to values stored before it, so
/// parts may be shared but no structure reaches itself.
pub struct Arena {
    cells: Vec<Object>,
}

/// Whether `o`, stored at place `i`, refers only to earlier places.
pub open spec fn refers_below(o: Object, i: int) -> bool {
    match o {
        Object::Cons(a, d) => a < i && d < i,
        _ => true,
    }
}

/// The decimal digits of `n`, most significant first.
pub open spec fn digits(n: nat) -> Seq<u8>
    decreases n,
{
    if n < 10 {
        seq![(ZERO + n) as u8]
    } else {
        digits(n / 10) + seq![(ZERO + n % 10) as u8]
    }
}

/// `n` in decimal, with a leading minus sign when negative.
pub open spec fn decimal(n: int) -> Seq<u8> {
    if n < 0 {
        seq![MINUS] + digits((-n) as nat)
    } else {
        digits(n as nat)
    }
}

/// The text of the value at place `v` of `h`.
pub open spec fn text(h: Seq<Object>, v: int) -> Seq<u8>
    decreases v, 0int,
{
    if 0 <= v < h.len() && refers_below(h[v], v) {
        match h[v] {
            Object::Cons(a, d) => seq![OPEN] + text(h, a as int) + tail_text(h, d as int) + seq![CLOSE],
            Object::Nil => seq![OPEN, CLOSE],
            Object::Symbol(s) => s@,
            Object::Int64(n) => decimal(n as int),
            Object::String(s) => seq![QUOTE] + s@ + seq![QUOTE],
            Object::Eof => Seq::empty(),
        }
    } else {
        Seq::empty()
    }
}

/// The text that follows the first element of a list whose rest is the
/// value at place `d`: each further element after a space, then ` . ` and
/// the final part unless it is `()`.
pub open spec fn tail_text(h: Seq<Object>, d: int) -> Seq<u8>
    decreases d, 1int,
{
    if 0 <= d < h.len() && refers_below(h[d], d) {
        match h[d] {
            Object::Cons(a, d2) => seq![SPACE] + text(h, a as int) + tail_text(h, d2 as int),
            Object::Nil => Seq::empty(),
            _ => seq![SPACE, DOT, SPACE] + text(h, d),
        }
    } else {
        Seq::empty()
    }
}

impl View for Arena {
    type V = Seq<Object>;

    closed spec fn view(&self) -> Seq<Object> {
        self.cells@
    }
}

impl Arena {
    /// Every pair refers only to places below its own.
    pub open spec fn wf(&self) -> bool {
        forall|i: int| 0 <= i < self@.len() ==> #[trigger] refers_below(self@[i], i)
    }

    /// An empty arena.
    pub fn new() -> (r: Arena)
        ensures
            r.wf(),
            r@ == Seq::<Object>::empty(),
    {
        Arena { cells: Vec::new() }
    }

    /// The number of values stored.
    pub fn len(&self) -> (r: usize)
        ensures
            r == self@.len(),
    {
        self.cells.len()
    }

    /// Stores `o` and returns its place; a pair must refer to values already
    /// stored.
    pub fn store(&mut self, o: Object) -> (r: usize)
        requires
            old(self).wf(),
            refers_below(o, old(self)@.len() as int),
        ensures
            final(self).wf(),
            r == old(self)@.len(),
            final(self)@ == old(self)@.push(o),
    {
        let r = self.cells.len();
        self.cells.push(o);
        proof {
            assert forall|i: int| 0 <= i < self@.len() implies #[trigger] refers_below(self@[i], i) by {
                if i < r {
                    assert(refers_below(old(self)@[i], i));
                }
            }
        }
        r
    }

    /// The value at place `i`.
    pub fn get(&self, i: usize) -> (r: &Object)
        requires
            i < self@.len(),
        ensures
            *r == self@[i as int],
    {
        &self.cells[i]
    }
}

/// Appends the bytes of `s`.
fn write_bytes(out: &mut Vec<u8>, s: &Vec<u8>)
    ensures
        final(out)@ == old(out)@ + s@,
{
    let mut i: usize = 0;
    while i < s.len()
        invariant
            i <= s@.len(),
            out@ == old(out)@ + s@.subrange(0, i as int),
        decreases s@.len() - i,
    {
        out.push(s[i]);
        i = i + 1;
        proof {
            assert(s@.subrange(0, i as int) =~= s@.subrange(0, i - 1) + seq![s@[i - 1]]);
        }
    }
    proof {
        assert(s@.subrange(0, s@.len() as int) =~= s@);
    }
}

/// Appends the decimal digits of `m`.
fn write_digits(out: &mut Vec<u8>, m: u64)
    ensures
        final(out)@ == old(out)@ + digits(m as nat),
    decreases m,
{
    if m >= 10 {
        write_digits(out, m / 10);
    }
    out.push(ZERO + (m % 10) as u8);
    proof {
        assert(final(out)@ =~= old(out)@ + digits(m as nat));
    }
}

/// Appends `n` in decimal.
fn write_decimal(out: &mut Vec<u8>, n: i64)
    ensures
        final(out)@ == old(out)@ + decimal(n as int),
{
    if n < 0 {
        out.push(MINUS);
        let m: u64 = (0i128 - n as i128) as u64;
        write_digits(out, m);
        proof {
            assert(final(out)@ =~= old(out)@ + decimal(n as int));
        }
    } else {
        write_digits(out, n as u64);
    }
}

/// Appends the text of the value at place `v`: `()` for the empty list, a
/// symbol as it is, an integer in decimal, a string between double quotes,
/// nothing for the end-of-input marker, and a chain of pairs as a list in
/// parentheses, its elements separated by spaces and a final part other than
/// `()` written after ` . `.
pub fn print(arena: &Arena, v: usize, out: &mut Vec<u8>)
    requires
        arena.wf(),
        v < arena@.len(),
    ensures
        final(out)@ == old(out)@ + text(arena@, v as int),
    decreases v, 1int,
{
    let ghost h = arena@;
    proof {
        assert(refers_below(h[v as int], v as int));
    }
    match arena.get(v) {
        Object::Cons(a, d) => {
            print_cons(arena, *a, *d, out);
        },
        Object::Nil => {
            out.push(OPEN);
            out.push(CLOSE);
            proof {
                assert(final(out)@ =~= old(out)@ + text(h, v as int));
            }
        },
        Object::Symbol(s) => {
            write_bytes(out, s);
        },
        Object::Int64(n) => {
            write_decimal(out, *n);
        },
        Object::String(s) => {
            out.push(QUOTE);
            write_bytes(out, s);
            out.push(QUOTE);
            proof {
                assert(final(out)@ =~= old(out)@ + text(h, v as int));
            }
        },
        Object::Eof => {
            proof {
                assert(final(out)@ =~= old(out)@ + text(h, v as int));
            }
        },
    }
}

/// Appends the text of a pair with parts `car` and `cdr`: the elements of the
/// chain of pairs in parentheses, separated by spaces, and ` . ` before a
/// final part other than `()`.
fn print_cons(arena: &Arena, car: usize, cdr: usize, out: &mut Vec<u8>)
    requires
        arena.wf(),
        car < arena@.len(),
        cdr < arena@.len(),
    ensures
        final(out)@ == old(out)@ + seq![OPEN] + text(arena@, car as int) + tail_text(arena@, cdr as int)
            + seq![CLOSE],
    decreases if car < cdr { cdr } else { car }, 2int,
{
    let ghost h = arena@;
    let ghost top = if car < cdr { cdr } else { car };
    let ghost goal = old(out)@ + seq![OPEN] + text(h, car as int) + tail_text(h, cdr as int);
    out.push(OPEN);
    print(arena, car, out);
    let mut rest: usize = cdr;
    loop
        invariant_except_break
            out@ + tail_text(h, rest as int) == goal,
        invariant
            arena.wf(),
            arena@ == h,
            rest <= top,
            top == (if car < cdr { cdr } else { car }),
            top < h.len(),
        ensures
            out@ == goal,
        decreases rest,
    {
        proof {
            assert(refers_below(h[rest as int], rest as int));
        }
        match arena.get(rest) {
            Object::Cons(a2, d2) => {
                let a2 = *a2;
                let d2 = *d2;
                let ghost before = out@;
                let ghost old_rest = rest as int;
                out.push(SPACE);
                print(arena, a2, out);
                rest = d2;
                proof {
                    assert(out@ + tail_text(h, d2 as int) =~= before + tail_text(h, old_rest));
                }
            },
            Object::Nil => {
                proof {
                    assert(out@ =~= goal);
                }
                break;
            },
            _ => {
                out.push(SPACE);
                out.push(DOT);
                out.push(SPACE);
                print(arena, rest, out);
                proof {
                    assert(out@ =~= goal);
                }
                break;
            },
        }
    }
    out.push(CLOSE);
}

} // verus!
