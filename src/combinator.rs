use crate::foundation::{Ctx, Failure, ParseResult, Success};
use vstd::prelude::*;

verus! {

/// An outcome that stays on the text it started from, never reports a
/// position before its start, and stays within the text.
pub open spec fn stays_on<T>(c: Ctx, r: ParseResult<T>) -> bool {
    match r {
        Ok(s) => s.ctx.text == c.text && c.index <= s.ctx.index && s.ctx.wf(),
        Err(f) => f.ctx.text == c.text && c.index <= f.ctx.index && f.ctx.wf(),
    }
}

/// A well-formed position on the text of `from`, at or after it.
pub open spec fn reachable(from: Ctx, c: Ctx) -> bool {
    c.wf() && c.text == from.text && from.index <= c.index
}

/// `p` can be applied at every position reachable from `from`, and each of
/// its outcomes stays on the text from there on.
pub open spec fn well_behaved<T, F: Fn(&Ctx) -> ParseResult<T>>(p: F, from: Ctx) -> bool {
    &&& forall|c: Ctx| reachable(from, c) ==> #[trigger] p.requires((&c,))
    &&& forall|c: Ctx, r: ParseResult<T>|
        reachable(from, c) && #[trigger] p.ensures((&c,), r) ==> stays_on(c, r)
}

/// Every match of `p` from a position reachable from `from` consumes at
/// least one byte.
pub open spec fn consumes<T, F: Fn(&Ctx) -> ParseResult<T>>(p: F, from: Ctx) -> bool {
    forall|c: Ctx, r: ParseResult<T>|
        reachable(from, c) && #[trigger] p.ensures((&c,), r) ==> (r matches Ok(s) ==> c.index
            < s.ctx.index)
}

/// The outcome of trying alternatives in order, given the outcomes of those
/// tried: the first match, else the mismatch that got furthest (the earliest
/// of those that got equally far).
pub open spec fn alternatives<T>(rs: Seq<ParseResult<T>>) -> ParseResult<T>
    recommends
        rs.len() > 0,
    decreases rs.len(),
{
    if rs.len() <= 1 {
        rs[0]
    } else {
        let prev = alternatives(rs.drop_last());
        match prev {
            Ok(_) => prev,
            Err(e) => match rs.last() {
                Ok(s) => Ok(s),
                Err(f) => if f.ctx.index > e.ctx.index {
                    Err(f)
                } else {
                    Err(e)
                },
            },
        }
    }
}

/// When every alternative mismatches, the one reported got furthest, and no
/// earlier one got as far.
pub proof fn lemma_furthest_failure<T>(rs: Seq<ParseResult<T>>)
    requires
        rs.len() > 0,
        forall|j: int| 0 <= j < rs.len() ==> #[trigger] rs[j] is Err,
    ensures
        alternatives(rs) is Err,
        exists|k: int|
            0 <= k < rs.len() && alternatives(rs) == rs[k] && (forall|j: int|
                0 <= j < rs.len() ==> (#[trigger] rs[j])->Err_0.ctx.index <= rs[k]->Err_0.ctx.index)
                && (forall|j: int| 0 <= j < k ==> (#[trigger] rs[j])->Err_0.ctx.index
                < rs[k]->Err_0.ctx.index),
    decreases rs.len(),
{
    if rs.len() > 1 {
        let init = rs.drop_last();
        assert forall|j: int| 0 <= j < init.len() implies #[trigger] init[j] is Err by {
            assert(init[j] == rs[j]);
        }
        lemma_furthest_failure(init);
        let k0 = choose|k: int|
            0 <= k < init.len() && alternatives(init) == init[k] && (forall|j: int|
                0 <= j < init.len() ==> (#[trigger] init[j])->Err_0.ctx.index
                    <= init[k]->Err_0.ctx.index) && (forall|j: int|
                0 <= j < k ==> (#[trigger] init[j])->Err_0.ctx.index < init[k]->Err_0.ctx.index);
        let last = rs.len() - 1;
        assert(rs[last] is Err);
        if rs[last]->Err_0.ctx.index > rs[k0]->Err_0.ctx.index {
            assert forall|j: int| 0 <= j < last implies (#[trigger] rs[j])->Err_0.ctx.index
                < rs[last]->Err_0.ctx.index by {
                assert(init[j] == rs[j]);
            }
            assert(alternatives(rs) == rs[last]);
        } else {
            assert forall|j: int| 0 <= j < rs.len() implies (#[trigger] rs[j])->Err_0.ctx.index
                <= rs[k0]->Err_0.ctx.index by {
                if j < last {
                    assert(init[j] == rs[j]);
                }
            }
            assert forall|j: int| 0 <= j < k0 implies (#[trigger] rs[j])->Err_0.ctx.index
                < rs[k0]->Err_0.ctx.index by {
                assert(init[j] == rs[j]);
            }
            assert(alternatives(rs) == rs[k0]);
        }
    } else {
        assert(alternatives(rs) == rs[0]);
    }
}

/// The outcome of trying alternatives is one of their outcomes.
pub proof fn lemma_alternatives_member<T>(rs: Seq<ParseResult<T>>)
    requires
        rs.len() > 0,
    ensures
        exists|j: int| 0 <= j < rs.len() && alternatives(rs) == rs[j],
    decreases rs.len(),
{
    if rs.len() > 1 {
        let init = rs.drop_last();
        lemma_alternatives_member(init);
        let j = choose|j: int| 0 <= j < init.len() && alternatives(init) == init[j];
        assert(init[j] == rs[j]);
        if alternatives(rs) != rs[j] {
            assert(alternatives(rs) == rs[rs.len() - 1]);
        }
    } else {
        assert(alternatives(rs) == rs[0]);
    }
}

/// When the first alternative matches, its match is the outcome.
pub proof fn lemma_alternatives_first_match<T>(rs: Seq<ParseResult<T>>)
    requires
        rs.len() > 0,
        rs[0] is Ok,
    ensures
        alternatives(rs) == rs[0],
    decreases rs.len(),
{
    if rs.len() > 1 {
        lemma_alternatives_first_match(rs.drop_last());
        assert(rs.drop_last()[0] == rs[0]);
    }
}

/// Tries the alternatives `parsers(0, ctx)`, ..., `parsers(count - 1, ctx)`
/// in order from the same position. The first match wins; when all of them
/// mismatch, the mismatch that got furthest is reported (the earliest one on
/// a tie).
pub fn any<T, F: Fn(usize, &Ctx) -> ParseResult<T>>(parsers: &F, count: usize, ctx: &Ctx) -> (r:
    ParseResult<T>)
    requires
        forall|i: usize| i < count ==> #[trigger] parsers.requires((i, ctx)),
    ensures
        count == 0 ==> (r matches Err(f) && f.ctx == *ctx && f.expected@ == "any"@),
        count > 0 ==> exists|rs: Seq<ParseResult<T>>|
            {
                &&& 0 < rs.len() <= count
                &&& forall|j: int| 0 <= j < rs.len() ==> parsers.ensures((j as usize, ctx), #[trigger] rs[j])
                &&& rs.len() < count ==> rs.last() is Ok
                &&& r == alternatives(rs)
            },
{
    if count == 0 {
        return Err(ctx.failure("any".to_string()));
    }
    let ghost mut rs: Seq<ParseResult<T>> = Seq::empty();
    let mut err: Option<Failure> = None;
    let mut i: usize = 0;
    while i < count
        invariant
            forall|i: usize| i < count ==> #[trigger] parsers.requires((i, ctx)),
            0 <= i <= count,
            rs.len() == i,
            forall|j: int| 0 <= j < rs.len() ==> parsers.ensures((j as usize, ctx), #[trigger] rs[j]),
            i == 0 <==> err is None,
            i > 0 ==> alternatives(rs) == Err::<Success<T>, Failure>(err->Some_0),
        decreases count - i,
    {
        let res = parsers(i, ctx);
        let ghost prev = rs;
        proof {
            rs = rs.push(res);
            assert(rs.drop_last() =~= prev);
        }
        match res {
            Ok(success) => {
                assert(alternatives(rs) == Ok::<Success<T>, Failure>(success));
                return Ok(success);
            },
            Err(failure) => {
                let replace = match &err {
                    None => true,
                    Some(e) => failure.index() > e.index(),
                };
                if replace {
                    err = Some(failure);
                }
            },
        }
        i = i + 1;
    }
    match err {
        Some(e) => Err(e),
        None => Err(ctx.failure("any".to_string())),
    }
}


/// `cs` are the positions of a run of matches of `p`, each starting where the
/// one before ended, and `vals` are the values matched.
pub open spec fn run<T, F: Fn(&Ctx) -> ParseResult<T>>(p: F, cs: Seq<Ctx>, vals: Seq<T>) -> bool {
    &&& cs.len() == vals.len() + 1
    &&& forall|i: int|
        0 <= i < vals.len() ==> p.ensures((&cs[i],), Ok(Success { ctx: cs[i + 1], val: #[trigger] vals[i] }))
}

/// Applies `parser` again and again, each time where the last match ended,
/// and collects the values until it first mismatches; that attempt consumes
/// nothing. Always matches, possibly with no values.
pub fn many<T, F: Fn(&Ctx) -> ParseResult<T>>(parser: &F, ctx: &Ctx) -> (r: ParseResult<Vec<T>>)
    requires
        ctx.wf(),
        well_behaved(*parser, *ctx),
        consumes(*parser, *ctx),
    ensures
        r is Ok,
        stays_on(*ctx, r),
        exists|cs: Seq<Ctx>|
            #![trigger run(*parser, cs, r->Ok_0.val@)]
            run(*parser, cs, r->Ok_0.val@) && cs[0] == *ctx && cs.last() == r->Ok_0.ctx,
        exists|f: Failure| parser.ensures((&r->Ok_0.ctx,), Err::<Success<T>, Failure>(f)),
{
    let mut values: Vec<T> = Vec::new();
    let mut next_ctx = ctx.next(ctx.index);
    let ghost mut cs: Seq<Ctx> = seq![next_ctx];
    loop
        invariant
            ctx.wf(),
            well_behaved(*parser, *ctx),
            consumes(*parser, *ctx),
            next_ctx.wf(),
            next_ctx.text == ctx.text,
            ctx.index <= next_ctx.index,
            run(*parser, cs, values@),
            cs[0] == *ctx,
            cs.last() == next_ctx,
        decreases ctx.bytes().len() - next_ctx.index,
    {
        let res = parser(&next_ctx);
        match res {
            Err(f) => {
                let r = next_ctx.success(values);
                assert(parser.ensures((&r.ctx,), Err::<Success<T>, Failure>(f)));
                return Ok(r);
            },
            Ok(success) => {
                let ghost old_cs = cs;
                let ghost old_vals = values@;
                proof {
                    cs = cs.push(success.ctx);
                }
                next_ctx = success.ctx;
                values.push(success.val);
                assert forall|i: int| 0 <= i < values@.len() implies parser.ensures(
                    (&cs[i],),
                    Ok(Success { ctx: cs[i + 1], val: #[trigger] values@[i] }),
                ) by {
                    if i < old_vals.len() {
                        assert(old_vals[i] == values@[i]);
                        assert(old_cs[i] == cs[i] && old_cs[i + 1] == cs[i + 1]);
                    }
                }
            },
        }
    }
}

/// Matches `left`, then `parser`, then `right`, and keeps what `parser`
/// matched. The first stage that mismatches gives the outcome.
pub fn delimited<
    T,
    L,
    R,
    FL: Fn(&Ctx) -> ParseResult<L>,
    FP: Fn(&Ctx) -> ParseResult<T>,
    FR: Fn(&Ctx) -> ParseResult<R>,
>(left: &FL, parser: &FP, right: &FR, ctx: &Ctx) -> (r: ParseResult<T>)
    requires
        ctx.wf(),
        well_behaved(*left, *ctx),
        well_behaved(*parser, *ctx),
        well_behaved(*right, *ctx),
    ensures
        stays_on(*ctx, r),
        exists|l: ParseResult<L>|
            #![trigger left.ensures((ctx,), l)]
            left.ensures((ctx,), l) && match l {
                Err(f) => r == Err::<Success<T>, Failure>(f),
                Ok(ls) => exists|m: ParseResult<T>|
                    #![trigger parser.ensures((&ls.ctx,), m)]
                    parser.ensures((&ls.ctx,), m) && match m {
                        Err(f) => r == Err::<Success<T>, Failure>(f),
                        Ok(ms) => exists|e: ParseResult<R>|
                            #![trigger right.ensures((&ms.ctx,), e)]
                            right.ensures((&ms.ctx,), e) && match e {
                                Err(f) => r == Err::<Success<T>, Failure>(f),
                                Ok(es) => r == Ok::<Success<T>, Failure>(
                                    Success { ctx: es.ctx, val: ms.val },
                                ),
                            },
                    },
            },
{
    let l = left(ctx);
    match l {
        Err(f) => Err(f),
        Ok(ls) => {
            let m = parser(&ls.ctx);
            match m {
                Err(f) => Err(f),
                Ok(ms) => {
                    let e = right(&ms.ctx);
                    match e {
                        Err(f) => Err(f),
                        Ok(es) => Ok(Success { ctx: es.ctx, val: ms.val }),
                    }
                },
            }
        },
    }
}

/// Matches `left`, then `parser` where `left` ended, and keeps what `parser`
/// matched.
pub fn delimited_left<L, T, FL: Fn(&Ctx) -> ParseResult<L>, FP: Fn(&Ctx) -> ParseResult<T>>(
    left: &FL,
    parser: &FP,
    ctx: &Ctx,
) -> (r: ParseResult<T>)
    requires
        ctx.wf(),
        well_behaved(*left, *ctx),
        well_behaved(*parser, *ctx),
    ensures
        stays_on(*ctx, r),
        exists|l: ParseResult<L>|
            #![trigger left.ensures((ctx,), l)]
            left.ensures((ctx,), l) && match l {
                Err(f) => r == Err::<Success<T>, Failure>(f),
                Ok(ls) => parser.ensures((&ls.ctx,), r),
            },
{
    let l = left(ctx);
    match l {
        Err(f) => Err(f),
        Ok(ls) => parser(&ls.ctx),
    }
}

/// `vals` were matched by `element` from `starts[i]` to `ends[i]`, and each
/// element after the first starts where a match of `separator` (of value
/// `seps[i - 1]`) that began at the end of the one before ended.
pub open spec fn separated_run<S, T, FS: Fn(&Ctx) -> ParseResult<S>, FE: Fn(&Ctx) -> ParseResult<T>>(
    separator: FS,
    element: FE,
    starts: Seq<Ctx>,
    ends: Seq<Ctx>,
    vals: Seq<T>,
    seps: Seq<S>,
) -> bool {
    &&& starts.len() == vals.len()
    &&& seps.len() + 1 == vals.len()
    &&& ends.len() == vals.len()
    &&& forall|i: int|
        0 <= i < vals.len() ==> element.ensures(
            (&starts[i],),
            Ok(Success { ctx: ends[i], val: #[trigger] vals[i] }),
        )
    &&& forall|i: int|
        0 < i < vals.len() ==> separator.ensures(
            (&ends[i - 1],),
            Ok(Success { ctx: starts[i], val: #[trigger] seps[i - 1] }),
        )
}

/// Matches zero or more `element`s separated by `separator`. Without a first
/// element it matches nothing at `ctx`. Otherwise it goes on while a
/// separator and then an element match, and stops right after the last
/// element: a separator that no element follows is left unconsumed.
pub fn separated<S, T, FS: Fn(&Ctx) -> ParseResult<S>, FE: Fn(&Ctx) -> ParseResult<T>>(
    separator: &FS,
    element: &FE,
    ctx: &Ctx,
) -> (r: ParseResult<Vec<T>>)
    requires
        ctx.wf(),
        well_behaved(*separator, *ctx),
        well_behaved(*element, *ctx),
        consumes(*element, *ctx),
    ensures
        r is Ok,
        stays_on(*ctx, r),
        r->Ok_0.val@.len() == 0 ==> r->Ok_0.ctx == *ctx && exists|f: Failure|
            element.ensures((ctx,), Err::<Success<T>, Failure>(f)),
        r->Ok_0.val@.len() > 0 ==> {
            &&& exists|starts: Seq<Ctx>, ends: Seq<Ctx>, seps: Seq<S>|
                #![trigger separated_run(*separator, *element, starts, ends, r->Ok_0.val@, seps)]
                separated_run(*separator, *element, starts, ends, r->Ok_0.val@, seps) && starts[0]
                    == *ctx && ends.last() == r->Ok_0.ctx
            &&& exists|s: ParseResult<S>|
                #![trigger separator.ensures((&r->Ok_0.ctx,), s)]
                separator.ensures((&r->Ok_0.ctx,), s) && (s matches Ok(ss) ==> exists|f: Failure|
                    element.ensures((&ss.ctx,), Err::<Success<T>, Failure>(f)))
        },
{
    let first = element(ctx);
    let mut values: Vec<T> = Vec::new();
    let mut next_ctx;
    match first {
        Err(f) => {
            let r = ctx.success(values);
            assert(element.ensures((ctx,), Err::<Success<T>, Failure>(f)));
            return Ok(r);
        },
        Ok(s) => {
            next_ctx = s.ctx;
            values.push(s.val);
        },
    }
    let ghost mut starts: Seq<Ctx> = seq![*ctx];
    let ghost mut ends: Seq<Ctx> = seq![next_ctx];
    let ghost mut seps: Seq<S> = Seq::empty();
    loop
        invariant
            ctx.wf(),
            well_behaved(*separator, *ctx),
            well_behaved(*element, *ctx),
            consumes(*element, *ctx),
            next_ctx.wf(),
            next_ctx.text == ctx.text,
            ctx.index <= next_ctx.index,
            values@.len() > 0,
            separated_run(*separator, *element, starts, ends, values@, seps),
            starts[0] == *ctx,
            ends.last() == next_ctx,
        decreases ctx.bytes().len() - next_ctx.index,
    {
        let sep = separator(&next_ctx);
        match sep {
            Err(f) => {
                let ghost sep_res = Err::<Success<S>, Failure>(f);
                let r = next_ctx.success(values);
                assert(separator.ensures((&r.ctx,), sep_res));
                return Ok(r);
            },
            Ok(ss) => {
                let el = element(&ss.ctx);
                match el {
                    Err(f) => {
                        let ghost sep_res = Ok::<Success<S>, Failure>(ss);
                        let r = next_ctx.success(values);
                        assert(separator.ensures((&r.ctx,), sep_res));
                        assert(element.ensures((&ss.ctx,), Err::<Success<T>, Failure>(f)));
                        return Ok(r);
                    },
                    Ok(es) => {
                        let ghost old_starts = starts;
                        let ghost old_ends = ends;
                        let ghost old_seps = seps;
                        let ghost old_vals = values@;
                        proof {
                            starts = starts.push(ss.ctx);
                            ends = ends.push(es.ctx);
                            seps = seps.push(ss.val);
                        }
                        next_ctx = es.ctx;
                        values.push(es.val);
                        assert forall|i: int| 0 <= i < values@.len() implies element.ensures(
                            (&starts[i],),
                            Ok(Success { ctx: ends[i], val: #[trigger] values@[i] }),
                        ) by {
                            if i < old_vals.len() {
                                assert(old_vals[i] == values@[i]);
                                assert(old_starts[i] == starts[i] && old_ends[i] == ends[i]);
                            }
                        }
                        assert forall|i: int| 0 < i < values@.len() implies separator.ensures(
                            (&ends[i - 1],),
                            Ok(Success { ctx: starts[i], val: #[trigger] seps[i - 1] }),
                        ) by {
                            if i < old_vals.len() {
                                assert(old_ends[i - 1] == ends[i - 1]);
                                assert(old_starts[i] == starts[i]);
                                assert(old_seps[i - 1] == seps[i - 1]);
                            } else {
                                assert(ends[i - 1] == old_ends.last());
                                assert(starts[i] == ss.ctx);
                                assert(seps[i - 1] == ss.val);
                            }
                        }
                    },
                }
            },
        }
    }
}

} // verus!
