//! Outcomes of coding steps, as the contracts state them.
//!
//! A decoding step is a function from a bit stream and a position to a
//! [`Parsed`] value; an encoding step yields an [`Emit`].

use crate::bits;
use crate::error::{Error, Result};
use vstd::prelude::*;

verus! {

/// What a decoding step returns, and the position it leaves the reader at.
pub type Parsed<T> = (Result<T>, nat);

/// What an encoding step appends to the writer, and what it returns.
#[verifier::ext_equal]
pub struct Emit {
    pub code: Seq<bool>,
    pub result: Result<()>,
}

impl Emit {
    /// A step that appends `code` and succeeds.
    pub open spec fn of(code: Seq<bool>) -> Emit {
        Emit { code, result: Ok(()) }
    }

    /// A step that appends nothing and fails.
    pub open spec fn fail(e: Error) -> Emit {
        Emit { code: Seq::empty(), result: Err(e) }
    }

    /// `self`, and `next` behind it unless `self` failed.
    pub open spec fn chain(self, next: Emit) -> Emit {
        if self.result is Ok {
            Emit { code: self.code + next.code, result: next.result }
        } else {
            self
        }
    }

    /// `self` with `code` in front of what it appends.
    pub open spec fn after(self, code: Seq<bool>) -> Emit {
        Emit { code: code + self.code, result: self.result }
    }
}

/// What a run of like decoding steps yields: the values decoded before the first
/// failure, the outcome, and the position the reader is left at.
#[verifier::ext_equal]
pub struct Swept<T> {
    pub done: Seq<T>,
    pub result: Result<()>,
    pub pos: nat,
}

impl<T> Swept<T> {
    /// The run as one step that yields all its values.
    pub open spec fn parsed(self) -> Parsed<Seq<T>> {
        match self.result {
            Ok(_) => (Ok(self.done), self.pos),
            Err(e) => (Err(e), self.pos),
        }
    }
}

/// Decodes values until there are `n` of them. Each step sees the values before it.
pub open spec fn sweep<T>(
    step: spec_fn(Seq<T>, nat) -> Parsed<T>,
    n: nat,
    done: Seq<T>,
    pos: nat,
) -> Swept<T>
    decreases n - done.len(),
{
    if done.len() >= n {
        Swept { done, result: Ok(()), pos }
    } else {
        match step(done, pos) {
            (Ok(v), p) => sweep(step, n, done.push(v), p),
            (Err(e), p) => Swept { done, result: Err(e), pos: p },
        }
    }
}

/// Encodes the items `from..n`, one after the other, until one fails.
pub open spec fn emit_each(step: spec_fn(int) -> Emit, from: int, n: int) -> Emit
    decreases n - from,
{
    if from >= n {
        Emit::of(Seq::empty())
    } else {
        step(from).chain(emit_each(step, from + 1, n))
    }
}

/// The first of the items `from..n` that fails, or `n`.
pub open spec fn stopped(step: spec_fn(int) -> Emit, from: int, n: int) -> int
    decreases n - from,
{
    if from >= n || step(from).result is Err {
        from
    } else {
        stopped(step, from + 1, n)
    }
}

/// Bits that a decoder may look ahead behind the code it reads.
pub open spec fn lookahead() -> nat {
    16
}

/// `code` stands at `pos`, with the look-ahead behind it.
pub open spec fn readable(bits: Seq<bool>, pos: nat, code: Seq<bool>) -> bool {
    bits::at(bits, pos, code) && pos + code.len() + lookahead() <= bits.len()
}

/// The step `parsed` took the bits from `pos` on that spell `code`, and no others.
pub open spec fn consumed<T>(bits: Seq<bool>, pos: nat, parsed: Parsed<T>, code: Seq<bool>) -> bool {
    parsed.0 is Ok ==> bits::at(bits, pos, code) && parsed.1 == pos + code.len()
}

/// Where every item's code reads back as the item, the codes in a row read back as
/// the items in a row.
pub proof fn lemma_sweep_reads_back<T>(
    bits: Seq<bool>,
    parse: spec_fn(Seq<T>, nat) -> Parsed<T>,
    emit: spec_fn(int) -> Emit,
    items: Seq<T>,
    i: int,
    pos: nat,
)
    requires
        0 <= i <= items.len(),
        forall|j: int, p: nat|
            0 <= j < items.len() && emit(j).result is Ok && readable(bits, p, emit(j).code)
                ==> #[trigger] parse(items.take(j), p) == (
                Ok::<T, Error>(items[j]),
                (p + emit(j).code.len()) as nat,
            ),
        emit_each(emit, i, items.len() as int).result is Ok,
        readable(bits, pos, emit_each(emit, i, items.len() as int).code),
    ensures
        sweep(parse, items.len(), items.take(i), pos) == (Swept {
            done: items,
            result: Ok(()),
            pos: pos + emit_each(emit, i, items.len() as int).code.len(),
        }),
    decreases items.len() - i,
{
    let n = items.len() as int;
    if i == n {
        assert(items.take(i) =~= items);
    } else {
        let head = emit(i);
        let tail = emit_each(emit, i + 1, n);
        assert(head.result is Ok && tail.result is Ok);
        assert(emit_each(emit, i, n).code == head.code + tail.code);
        bits::lemma_at_concat(bits, pos, head.code, tail.code);
        assert(items.take(i).push(items[i]) =~= items.take(i + 1));
        let next = pos + head.code.len();
        assert(parse(items.take(i), pos) == (Ok::<T, Error>(items[i]), next));
        lemma_sweep_reads_back(bits, parse, emit, items, i + 1, next);
        assert(items.take(i).len() == i);
    }
}

/// The same for steps that look no further than their own code.
pub proof fn lemma_sweep_reads_at<T>(
    bits: Seq<bool>,
    parse: spec_fn(Seq<T>, nat) -> Parsed<T>,
    emit: spec_fn(int) -> Emit,
    items: Seq<T>,
    i: int,
    pos: nat,
)
    requires
        0 <= i <= items.len(),
        forall|j: int, p: nat|
            0 <= j < items.len() && emit(j).result is Ok && bits::at(bits, p, emit(j).code)
                ==> #[trigger] parse(items.take(j), p) == (
                Ok::<T, Error>(items[j]),
                (p + emit(j).code.len()) as nat,
            ),
        emit_each(emit, i, items.len() as int).result is Ok,
        bits::at(bits, pos, emit_each(emit, i, items.len() as int).code),
    ensures
        sweep(parse, items.len(), items.take(i), pos) == (Swept {
            done: items,
            result: Ok(()),
            pos: pos + emit_each(emit, i, items.len() as int).code.len(),
        }),
    decreases items.len() - i,
{
    let n = items.len() as int;
    if i == n {
        assert(items.take(i) =~= items);
    } else {
        let head = emit(i);
        let tail = emit_each(emit, i + 1, n);
        assert(head.result is Ok && tail.result is Ok);
        assert(emit_each(emit, i, n).code == head.code + tail.code);
        bits::lemma_at_concat(bits, pos, head.code, tail.code);
        assert(items.take(i).push(items[i]) =~= items.take(i + 1));
        let next = pos + head.code.len();
        assert(parse(items.take(i), pos) == (Ok::<T, Error>(items[i]), next));
        lemma_sweep_reads_at(bits, parse, emit, items, i + 1, next);
        assert(items.take(i).len() == i);
    }
}

/// Where every decoded item encodes to the bits it was decoded from, a run of
/// decoded items encodes to the bits of the run.
pub proof fn lemma_sweep_writes_back<T>(
    bits: Seq<bool>,
    parse: spec_fn(Seq<T>, nat) -> Parsed<T>,
    emit: spec_fn(int) -> Emit,
    items: Seq<T>,
    i: int,
    pos: nat,
)
    requires
        0 <= i <= items.len(),
        pos <= bits.len(),
        sweep(parse, items.len(), items.take(i), pos).result is Ok,
        sweep(parse, items.len(), items.take(i), pos).done == items,
        forall|j: int, p: nat|
            0 <= j < items.len() && p <= bits.len() && (#[trigger] parse(items.take(j), p)).0
                == Ok::<T, Error>(items[j]) ==> emit(j).result is Ok && consumed(
                bits,
                p,
                parse(items.take(j), p),
                emit(j).code,
            ),
    ensures
        emit_each(emit, i, items.len() as int).result is Ok,
        bits::at(bits, pos, emit_each(emit, i, items.len() as int).code),
        sweep(parse, items.len(), items.take(i), pos).pos == pos + emit_each(
            emit,
            i,
            items.len() as int,
        ).code.len(),
    decreases items.len() - i,
{
    let n = items.len() as int;
    if i == n {
        assert(bits.subrange(pos as int, pos as int) =~= Seq::<bool>::empty());
    } else {
        let acc = items.take(i);
        assert(acc.len() == i);
        let (r, p) = parse(acc, pos);
        assert(r is Ok);
        let v = r->Ok_0;
        lemma_sweep_extends(parse, items.len(), acc.push(v), p);
        assert(items[i] == v) by {
            assert(acc.push(v)[i] == v);
        }
        assert(acc.push(v) =~= items.take(i + 1));
        lemma_sweep_writes_back(bits, parse, emit, items, i + 1, p);
        let head = emit(i);
        let tail = emit_each(emit, i + 1, n);
        bits::lemma_at_concat(bits, pos, head.code, tail.code);
        assert(emit_each(emit, i, n).code == head.code + tail.code);
    }
}

/// A run keeps the values it starts from, and never has more than it was asked for.
pub proof fn lemma_sweep_extends<T>(
    parse: spec_fn(Seq<T>, nat) -> Parsed<T>,
    n: nat,
    done: Seq<T>,
    pos: nat,
)
    ensures
        done.len() <= sweep(parse, n, done, pos).done.len(),
        sweep(parse, n, done, pos).done.take(done.len() as int) == done,
        done.len() <= n ==> sweep(parse, n, done, pos).done.len() <= n,
        done.len() <= n && sweep(parse, n, done, pos).result is Ok ==> sweep(
            parse,
            n,
            done,
            pos,
        ).done.len() == n,
        forall|i: int|
            0 <= i < done.len() ==> #[trigger] sweep(parse, n, done, pos).done[i] == done[i],
    decreases n - done.len(),
{
    if done.len() >= n {
        assert(done.take(done.len() as int) =~= done);
    } else {
        match parse(done, pos) {
            (Ok(v), p) => {
                lemma_sweep_extends(parse, n, done.push(v), p);
                let all = sweep(parse, n, done.push(v), p).done;
                assert(all.take(done.len() as int) =~= done) by {
                    assert forall|i: int| 0 <= i < done.len() implies all[i] == done[i] by {
                        assert(done.push(v)[i] == done[i]);
                    }
                }
                assert forall|i: int| 0 <= i < done.len() implies all[i] == done[i] by {
                    assert(done.push(v)[i] == done[i]);
                }
            },
            (Err(e), p) => {
                assert(done.take(done.len() as int) =~= done);
            },
        }
    }
}

/// The contexts `ctxs` are those that a caller's rule picks: the first is given, each
/// later one is what the rule returns for the value before it.
pub open spec fn chosen_by<A, F: Fn(A) -> u8>(
    rule: F,
    initial: u8,
    ctxs: Seq<u8>,
    values: Seq<A>,
) -> bool {
    &&& ctxs.len() == values.len() + 1
    &&& ctxs[0] == initial
    &&& forall|i: int|
        0 <= i < values.len() ==> call_ensures(rule, (#[trigger] values[i],), ctxs[i + 1])
}

/// A walk of up to `n` decoding steps, each in a context: `stops` are the positions
/// before the steps, and `end` is what the walk returns and where it leaves the reader.
pub open spec fn walked<A>(
    step: spec_fn(u8, nat) -> Parsed<A>,
    ctxs: Seq<u8>,
    stops: Seq<nat>,
    values: Seq<A>,
    n: nat,
    end: Parsed<()>,
) -> bool {
    &&& values.len() <= n
    &&& ctxs.len() == values.len() + 1
    &&& stops.len() == values.len() + 1
    &&& forall|i: int|
        0 <= i < values.len() ==> step(ctxs[i], stops[i]) == (
            Ok::<A, Error>(#[trigger] values[i]),
            stops[i + 1],
        )
    &&& if values.len() == n {
        end == (Ok::<(), Error>(()), stops.last())
    } else {
        step(ctxs.last(), stops.last()).0 is Err && end == (
            Err::<(), Error>(step(ctxs.last(), stops.last()).0->Err_0),
            step(ctxs.last(), stops.last()).1,
        )
    }
}

/// `old` with its first elements replaced by `values`.
pub open spec fn overwritten<A>(old: Seq<A>, values: Seq<A>) -> Seq<A> {
    values + old.skip(values.len() as int)
}

/// One more item of a run: what `done` stands before, with the item taken over.
pub proof fn lemma_emit_one(step: spec_fn(int) -> Emit, i: int, n: int, done: Seq<bool>)
    requires
        i < n,
    ensures
        step(i).result is Ok ==> emit_each(step, i, n).after(done) == emit_each(
            step,
            i + 1,
            n,
        ).after(done + step(i).code),
        step(i).result is Err ==> emit_each(step, i, n).after(done) == step(i).after(done),
{
    if step(i).result is Ok {
        let tail = emit_each(step, i + 1, n);
        assert(done + (step(i).code + tail.code) =~= (done + step(i).code) + tail.code);
    }
}

/// Steps in a row, behind what stands before them.
pub proof fn lemma_chain_after(a: Emit, b: Emit, done: Seq<bool>)
    ensures
        a.result is Ok ==> a.chain(b).after(done) == b.after(done + a.code),
        a.result is Err ==> a.chain(b).after(done) == a.after(done),
{
    assert(done + (a.code + b.code) =~= (done + a.code) + b.code);
}

/// What holds of every value that a step yields holds of every value of a run.
pub proof fn lemma_sweep_each<T>(
    parse: spec_fn(Seq<T>, nat) -> Parsed<T>,
    n: nat,
    done: Seq<T>,
    pos: nat,
    holds: spec_fn(int, T) -> bool,
)
    requires
        forall|d: Seq<T>, p: nat|
            d.len() < n && (#[trigger] parse(d, p)).0 is Ok ==> holds(
                d.len() as int,
                parse(d, p).0->Ok_0,
            ),
        forall|i: int| 0 <= i < done.len() ==> holds(i, #[trigger] done[i]),
    ensures
        forall|i: int|
            0 <= i < sweep(parse, n, done, pos).done.len() ==> holds(
                i,
                #[trigger] sweep(parse, n, done, pos).done[i],
            ),
    decreases n - done.len(),
{
    if done.len() < n {
        match parse(done, pos) {
            (Ok(v), p) => {
                assert(holds(done.len() as int, parse(done, pos).0->Ok_0));
                let more = done.push(v);
                assert forall|i: int| 0 <= i < more.len() implies holds(i, #[trigger] more[i]) by {
                    if i < done.len() {
                        assert(more[i] == done[i]);
                    }
                }
                lemma_sweep_each(parse, n, more, p, holds);
            },
            (Err(e), p) => {},
        }
    }
}

/// The positions before the steps of a run that succeeds, and the one behind it.
proof fn lemma_stops_from<T>(
    step: spec_fn(Seq<T>, nat) -> Parsed<T>,
    n: nat,
    done: Seq<T>,
    pos: nat,
) -> (stops: Seq<nat>)
    requires
        done.len() <= n,
        sweep(step, n, done, pos).result is Ok,
    ensures
        ({
            let all = sweep(step, n, done, pos);
            &&& all.done.len() == n
            &&& stops.len() == n - done.len() + 1
            &&& stops[0] == pos
            &&& stops.last() == all.pos
            &&& forall|k: int|
                done.len() <= k < n ==> step(all.done.take(k), stops[k - done.len()]) == (
                    Ok::<T, Error>(#[trigger] all.done[k]),
                    stops[k - done.len() + 1],
                )
        }),
    decreases n - done.len(),
{
    lemma_sweep_extends(step, n, done, pos);
    if done.len() == n {
        seq![pos]
    } else {
        let (v, p) = step(done, pos);
        let more = done.push(v->Ok_0);
        let rest = lemma_stops_from(step, n, more, p);
        let all = sweep(step, n, done, pos);
        let stops = seq![pos] + rest;
        lemma_sweep_extends(step, n, more, p);
        assert forall|k: int| done.len() <= k < n implies step(
            all.done.take(k),
            stops[k - done.len()],
        ) == (Ok::<T, Error>(#[trigger] all.done[k]), stops[k - done.len() + 1]) by {
            if k == done.len() {
                assert(all.done.take(k) == done);
                assert(all.done[k] == more[k]);
            } else {
                assert(stops[k - done.len()] == rest[k - more.len()]);
                assert(stops[k - done.len() + 1] == rest[k - more.len() + 1]);
            }
        }
        stops
    }
}

/// A run that succeeds is its steps in a row: each sees the values before it, and starts
/// where the one before it stopped.
pub proof fn lemma_sweep_stops<T>(
    step: spec_fn(Seq<T>, nat) -> Parsed<T>,
    n: nat,
    pos: nat,
) -> (stops: Seq<nat>)
    requires
        sweep(step, n, Seq::empty(), pos).result is Ok,
    ensures
        ({
            let all = sweep(step, n, Seq::empty(), pos);
            &&& all.done.len() == n
            &&& stops.len() == n + 1
            &&& stops[0] == pos
            &&& stops[n as int] == all.pos
            &&& forall|k: int|
                0 <= k < n ==> step(all.done.take(k), stops[k]) == (
                    Ok::<T, Error>(#[trigger] all.done[k]),
                    stops[k + 1],
                )
        }),
{
    let stops = lemma_stops_from(step, n, Seq::empty(), pos);
    let all = sweep(step, n, Seq::empty(), pos);
    assert forall|k: int| 0 <= k < n implies step(all.done.take(k), stops[k]) == (
        Ok::<T, Error>(#[trigger] all.done[k]),
        stops[k + 1],
    ) by {
        assert(k - Seq::<T>::empty().len() == k);
    }
    stops
}

/// A run fails at one of its steps: its number, the values before it and its position are
/// returned.
pub proof fn lemma_sweep_fails<T>(
    step: spec_fn(Seq<T>, nat) -> Parsed<T>,
    n: nat,
    done: Seq<T>,
    pos: nat,
) -> (at: (Seq<T>, nat))
    requires
        sweep(step, n, done, pos).result is Err,
    ensures
        done.len() <= at.0.len() < n,
        step(at.0, at.1).0 is Err,
        step(at.0, at.1).0->Err_0 == sweep(step, n, done, pos).result->Err_0,
        step(at.0, at.1).1 == sweep(step, n, done, pos).pos,
    decreases n - done.len(),
{
    match step(done, pos) {
        (Ok(v), p) => lemma_sweep_fails(step, n, done.push(v), p),
        (Err(e), p) => (done, pos),
    }
}

/// An array is made of its elements.
pub proof fn lemma_pair<T>(a: [T; 2])
    ensures
        [a[0], a[1]] == a,
{
    let b = [a[0], a[1]];
    assert(b@ =~= a@);
}

/// An array is made of its elements.
pub proof fn lemma_triple<T>(a: [T; 3])
    ensures
        [a[0], a[1], a[2]] == a,
{
    let b = [a[0], a[1], a[2]];
    assert(b@ =~= a@);
}

} // verus!
