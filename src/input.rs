//! A byte source with a two-slot pushback queue.
use vstd::prelude::*;

verus! {

/// The abstract state of an [`Input`].
pub struct InputView {
    /// Bytes pushed back and not yet taken again, the next one first.
    pub pending: Seq<u8>,
    /// Bytes that the last read of the source delivered and that are not yet taken.
    pub buffered: Seq<u8>,
    /// What each later read of the source will return, in order; an empty
    /// read marks the end of the stream.
    pub reads: Seq<Seq<u8>>,
}

/// The bytes that successive reads deliver before the first empty one.
pub open spec fn flatten(reads: Seq<Seq<u8>>) -> Seq<u8>
    decreases reads.len(),
{
    if reads.len() == 0 || reads[0].len() == 0 {
        Seq::empty()
    } else {
        reads[0] + flatten(reads.drop_first())
    }
}

/// Everything that repeated `get` calls hand out before the end of the stream.
pub open spec fn stream(v: InputView) -> Seq<u8> {
    v.pending + v.buffered + flatten(v.reads)
}

/// Whether a byte can be had without reading the source.
pub open spec fn available(v: InputView) -> bool {
    v.pending.len() > 0 || v.buffered.len() > 0
}

/// What one `get` returns, and the state it leaves.
pub open spec fn step(v: InputView) -> (Option<u8>, InputView) {
    if v.pending.len() > 0 {
        (Some(v.pending[0]), InputView { pending: v.pending.drop_first(), ..v })
    } else if v.buffered.len() > 0 {
        (Some(v.buffered[0]), InputView { buffered: v.buffered.drop_first(), ..v })
    } else if v.reads.len() == 0 {
        (None, v)
    } else if v.reads[0].len() == 0 {
        (None, InputView { reads: v.reads.drop_first(), ..v })
    } else {
        (
            Some(v.reads[0][0]),
            InputView { buffered: v.reads[0].drop_first(), reads: v.reads.drop_first(), ..v },
        )
    }
}

/// The state after `push(b)`.
pub open spec fn pushed(v: InputView, b: u8) -> InputView {
    InputView { pending: seq![b] + v.pending, ..v }
}

/// The state after `clear_pending_space`: spaces that are available are
/// taken, a newline is taken and ends the skip, any other byte is taken and
/// pushed back.
pub open spec fn skip_space(v: InputView) -> InputView
    decreases v.pending.len() + v.buffered.len(),
{
    if !available(v) {
        v
    } else {
        let (c, w) = step(v);
        match c {
            Some(b) => if b == 0x20 {
                skip_space(w)
            } else if b == 0x0a {
                w
            } else {
                pushed(w, b)
            },
            None => v,
        }
    }
}

/// The results of `n` successive `get` calls.
pub open spec fn gets(v: InputView, n: nat) -> Seq<Option<u8>>
    decreases n,
{
    if n == 0 {
        Seq::empty()
    } else {
        seq![step(v).0] + gets(step(v).1, (n - 1) as nat)
    }
}

/// One `get` hands out the first byte of the stream and leaves the rest, or
/// `None` when the stream is over.
pub proof fn lemma_step_stream(v: InputView)
    ensures
        stream(v).len() > 0 ==> step(v).0 == Some(stream(v)[0]) && stream(step(v).1)
            == stream(v).drop_first(),
        stream(v).len() == 0 ==> step(v).0 is None,
{
    let w = step(v).1;
    if v.pending.len() > 0 {
        assert(stream(w) =~= stream(v).drop_first());
    } else if v.buffered.len() > 0 {
        assert(stream(w) =~= stream(v).drop_first());
    } else if v.reads.len() > 0 && v.reads[0].len() > 0 {
        assert(flatten(v.reads) == v.reads[0] + flatten(v.reads.drop_first()));
        assert(stream(w) =~= stream(v).drop_first());
    }
}

/// Getting repeatedly hands out the stream exactly, byte by byte, and then
/// `None`.
pub proof fn lemma_gets_reproduce_stream(v: InputView)
    ensures
        gets(v, stream(v).len() + 1) == stream(v).map_values(|b: u8| Some(b)).push(None),
    decreases stream(v).len(),
{
    lemma_step_stream(v);
    let s = stream(v);
    if s.len() == 0 {
        assert(gets(step(v).1, 0) =~= Seq::empty());
        assert(gets(v, 1) =~= s.map_values(|b: u8| Some(b)).push(None));
    } else {
        let w = step(v).1;
        lemma_gets_reproduce_stream(w);
        assert(gets(v, s.len() + 1) =~= s.map_values(|b: u8| Some(b)).push(None));
    }
}

/// A byte pushed back is the next one got, and the state is then as before
/// the push.
pub proof fn lemma_push_then_get(v: InputView, b: u8)
    requires
        v.pending.len() < 2,
    ensures
        step(pushed(v, b)) == (Some(b), v),
{
    assert(step(pushed(v, b)).1.pending =~= v.pending);
}

/// With nothing pending, two bytes may be pushed back; they come out last
/// pushed first, and then the state is as before. After the two pushes the
/// queue is full, so a third push is not allowed.
pub proof fn lemma_two_pushes_lifo(v: InputView, a: u8, b: u8)
    requires
        v.pending.len() == 0,
    ensures
        pushed(pushed(v, a), b).pending.len() == 2,
        step(pushed(pushed(v, a), b)).0 == Some(b),
        step(step(pushed(pushed(v, a), b)).1).0 == Some(a),
        step(step(pushed(pushed(v, a), b)).1).1 == v,
{
    lemma_push_then_get(pushed(v, a), b);
    lemma_push_then_get(v, a);
}

/// A byte pushed back and not yet got can be had without reading the source.
pub proof fn lemma_pushed_is_available(v: InputView, b: u8)
    ensures
        available(pushed(v, b)),
        pushed(v, b).pending.len() > 0,
{
}

/// Skipping space never reads the source.
pub proof fn lemma_skip_space_reads_nothing(v: InputView)
    ensures
        skip_space(v).reads == v.reads,
    decreases v.pending.len() + v.buffered.len(),
{
    if available(v) {
        let (c, w) = step(v);
        if c == Some(0x20u8) {
            lemma_skip_space_reads_nothing(w);
        }
    }
}

/// Skipping space takes from the stream a run of spaces, possibly ended by a
/// newline, and nothing else.
pub proof fn lemma_skip_space_stream(v: InputView)
    ensures
        stream(skip_space(v)).len() <= stream(v).len(),
        stream(skip_space(v)) == stream(v).subrange(
            stream(v).len() - stream(skip_space(v)).len(),
            stream(v).len() as int,
        ),
        forall|i: int|
            0 <= i < stream(v).len() - stream(skip_space(v)).len() - 1 ==> #[trigger] stream(v)[i]
                == 0x20,
        stream(skip_space(v)).len() < stream(v).len() ==> stream(v)[stream(v).len() - stream(
            skip_space(v),
        ).len() - 1] == 0x20 || stream(v)[stream(v).len() - stream(skip_space(v)).len() - 1]
            == 0x0a,
    decreases v.pending.len() + v.buffered.len(),
{
    let s = stream(v);
    if available(v) {
        lemma_step_stream(v);
        let (c, w) = step(v);
        let b = c->0;
        if b == 0x20 {
            lemma_skip_space_stream(w);
            let t = stream(w);
            assert(t =~= s.drop_first());
            assert forall|i: int| 0 <= i < s.len() - stream(skip_space(v)).len() - 1 implies #[trigger] s[i]
                == 0x20 by {
                if i > 0 {
                    assert(s[i] == t[i - 1]);
                }
            }
            assert(stream(skip_space(v)) =~= s.subrange(s.len() - stream(skip_space(v)).len(), s.len() as int));
        } else if b == 0x0a {
            assert(stream(w) =~= s.subrange(1, s.len() as int));
        } else {
            assert(stream(pushed(w, b)) =~= s);
        }
    } else {
        assert(s.subrange(0, s.len() as int) =~= s);
    }
}

/// A byte stream over a source whose reads are given in advance, with room
/// for two bytes of lookahead.
pub struct Input {
    reads: Vec<Vec<u8>>,
    next: usize,
    off: usize,
    first: Option<u8>,
    second: Option<u8>,
}

impl View for Input {
    type V = InputView;

    closed spec fn view(&self) -> InputView {
        InputView {
            pending: match (self.first, self.second) {
                (Some(a), Some(b)) => seq![a, b],
                (Some(a), None) => seq![a],
                _ => Seq::empty(),
            },
            buffered: if self.next == 0 {
                Seq::empty()
            } else {
                self.reads@[self.next - 1]@.subrange(self.off as int, self.reads@[self.next - 1]@.len() as int)
            },
            reads: self.reads@.subrange(self.next as int, self.reads@.len() as int).map_values(
                |r: Vec<u8>| r@,
            ),
        }
    }
}

impl Input {
    /// The internal invariant.
    pub closed spec fn wf(&self) -> bool {
        &&& self.next <= self.reads@.len()
        &&& self.next == 0 ==> self.off == 0
        &&& self.next > 0 ==> self.off <= self.reads@[self.next - 1]@.len()
        &&& self.first is None ==> self.second is None
    }

    /// An input over a source whose successive reads return `reads`.
    pub fn new(reads: Vec<Vec<u8>>) -> (r: Input)
        ensures
            r.wf(),
            r@.pending == Seq::<u8>::empty(),
            r@.buffered == Seq::<u8>::empty(),
            r@.reads == reads@.map_values(|x: Vec<u8>| x@),
    {
        let r = Input { reads, next: 0, off: 0, first: None, second: None };
        assert(r@.reads =~= r.reads@.map_values(|x: Vec<u8>| x@));
        r
    }

    /// The next byte: the last one pushed back if any, else the next one the
    /// source delivers; `None` at the end of the stream.
    pub fn get(&mut self) -> (r: Option<u8>)
        requires
            old(self).wf(),
        ensures
            final(self).wf(),
            (r, final(self)@) == step(old(self)@),
    {
        if let Some(c) = self.first {
            self.first = self.second;
            self.second = None;
            proof {
                assert(self@.pending =~= old(self)@.pending.drop_first());
            }
            return Some(c);
        }
        if self.next > 0 && self.off < self.reads[self.next - 1].len() {
            let c = self.reads[self.next - 1][self.off];
            self.off = self.off + 1;
            proof {
                assert(self@.buffered =~= old(self)@.buffered.drop_first());
            }
            return Some(c);
        }
        proof {
            assert(old(self)@.buffered =~= Seq::<u8>::empty());
        }
        if self.next == self.reads.len() {
            return None;
        }
        let k = self.next;
        self.next = k + 1;
        if self.reads[k].len() == 0 {
            self.off = 0;
            proof {
                assert(self@.buffered =~= old(self)@.buffered);
                assert(self@.reads =~= old(self)@.reads.drop_first());
            }
            None
        } else {
            self.off = 1;
            proof {
                assert(self@.buffered =~= old(self)@.reads[0].drop_first());
                assert(self@.reads =~= old(self)@.reads.drop_first());
            }
            Some(self.reads[k][0])
        }
    }

    /// Puts `byte` back, ahead of anything already pending; at most two bytes
    /// may be pending.
    pub fn push(&mut self, byte: u8)
        requires
            old(self).wf(),
            old(self)@.pending.len() < 2,
        ensures
            final(self).wf(),
            final(self)@ == pushed(old(self)@, byte),
    {
        self.second = self.first;
        self.first = Some(byte);
        proof {
            assert(self@.pending =~= seq![byte] + old(self)@.pending);
        }
    }

    /// Whether `get` can return a byte without reading the source.
    pub fn has_pending(&self) -> (r: bool)
        requires
            self.wf(),
        ensures
            r == available(self@),
    {
        self.first.is_some() || (self.next > 0 && self.off < self.reads[self.next - 1].len())
    }

    /// Takes the spaces that are available without reading the source, up to
    /// and including a newline; a byte of another kind is put back.
    pub fn clear_pending_space(&mut self)
        requires
            old(self).wf(),
        ensures
            final(self).wf(),
            final(self)@ == skip_space(old(self)@),
    {
        while self.has_pending()
            invariant
                self.wf(),
                skip_space(self@) == skip_space(old(self)@),
            decreases self@.pending.len() + self@.buffered.len(),
        {
            let c = self.get();
            match c {
                Some(b) => {
                    if b == 0x0a {
                        return;
                    } else if b != 0x20 {
                        self.push(b);
                        return;
                    }
                },
                None => {
                    return;
                },
            }
        }
    }
}

} // verus!
