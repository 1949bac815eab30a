//! Bag difference on card-token lists: a verified selection removes each
//! selected token from the board exactly once per occurrence.
use vstd::prelude::*;

verus! {

/// `ts` with the first occurrence of `t` removed, or `ts` when `t` is absent.
pub open spec fn remove_first(ts: Seq<Seq<char>>, t: Seq<char>) -> Seq<Seq<char>>
    decreases ts.len(),
{
    if ts.len() == 0 {
        ts
    } else if ts[0] == t {
        ts.subrange(1, ts.len() as int)
    } else {
        seq![ts[0]] + remove_first(ts.subrange(1, ts.len() as int), t)
    }
}

/// `board` with, for each token of `sel` in order, one occurrence removed.
pub open spec fn remove_selected(board: Seq<Seq<char>>, sel: Seq<Seq<char>>) -> Seq<Seq<char>>
    decreases sel.len(),
{
    if sel.len() == 0 {
        board
    } else {
        remove_selected(remove_first(board, sel[0]), sel.subrange(1, sel.len() as int))
    }
}

/// When the tokens before `i` differ from `t` and token `i` equals it,
/// removing the first occurrence of `t` splices position `i` out.
proof fn lemma_remove_first_at(ts: Seq<Seq<char>>, t: Seq<char>, i: int)
    requires
        0 <= i < ts.len(),
        ts[i] == t,
        forall|k: int| 0 <= k < i ==> ts[k] != t,
    ensures
        remove_first(ts, t) =~= ts.subrange(0, i) + ts.subrange(i + 1, ts.len() as int),
    decreases ts.len(),
{
    if i == 0 {
        assert(ts.subrange(0, 0) + ts.subrange(1, ts.len() as int)
            =~= ts.subrange(1, ts.len() as int));
    } else {
        let tail = ts.subrange(1, ts.len() as int);
        assert(forall|k: int| 0 <= k < i - 1 ==> tail[k] != t);
        lemma_remove_first_at(tail, t, i - 1);
        assert(remove_first(ts, t)
            =~= ts.subrange(0, i) + ts.subrange(i + 1, ts.len() as int));
    }
}

/// When no token equals `t`, removing it changes nothing.
proof fn lemma_remove_first_absent(ts: Seq<Seq<char>>, t: Seq<char>)
    requires
        forall|k: int| 0 <= k < ts.len() ==> ts[k] != t,
    ensures
        remove_first(ts, t) =~= ts,
    decreases ts.len(),
{
    if ts.len() > 0 {
        lemma_remove_first_absent(ts.subrange(1, ts.len() as int), t);
        assert(remove_first(ts, t) =~= ts);
    }
}

/// Remove the first occurrence of `tok` from `ts`, if there is one.
fn remove_first_token(ts: &mut Vec<String>, tok: &String)
    ensures
        final(ts).deep_view() == remove_first(old(ts).deep_view(), tok@),
{
    let n = ts.len();
    let mut i: usize = 0;
    while i < n
        invariant
            n == ts.len(),
            i <= n,
            ts.deep_view() == old(ts).deep_view(),
            forall|k: int| 0 <= k < i ==> ts.deep_view()[k] != tok@,
        decreases n - i,
    {
        if ts[i].eq(tok) {
            proof {
                assert(ts.deep_view()[i as int] == tok@);
                lemma_remove_first_at(ts.deep_view(), tok@, i as int);
            }
            let ghost pre = ts.deep_view();
            ts.remove(i);
            proof {
                assert(ts.deep_view()
                    =~= pre.subrange(0, i as int) + pre.subrange(i + 1, pre.len() as int));
            }
            return;
        }
        i += 1;
    }
    proof {
        lemma_remove_first_absent(ts.deep_view(), tok@);
    }
}

/// The board after a valid selection, before the rule engine refills it:
/// each selected token takes exactly one matching occurrence off the board.
pub fn board_after_removal(board: &Vec<String>, selected: &Vec<String>) -> (r: Vec<String>)
    ensures
        r.deep_view() == remove_selected(board.deep_view(), selected.deep_view()),
{
    let mut out: Vec<String> = board.clone();
    proof {
        assert(out.deep_view() =~= board.deep_view());
        assert(selected.deep_view().subrange(0, selected@.len() as int)
            =~= selected.deep_view());
    }
    let n = selected.len();
    let mut i: usize = 0;
    while i < n
        invariant
            n == selected.len(),
            i <= n,
            remove_selected(board.deep_view(), selected.deep_view())
                == remove_selected(out.deep_view(), selected.deep_view().subrange(i as int, n as int)),
        decreases n - i,
    {
        let ghost pre = out.deep_view();
        let ghost rest = selected.deep_view().subrange(i as int, n as int);
        remove_first_token(&mut out, &selected[i]);
        proof {
            assert(rest[0] == selected.deep_view()[i as int]);
            assert(rest.subrange(1, rest.len() as int)
                =~= selected.deep_view().subrange(i + 1, n as int));
            assert(remove_selected(pre, rest)
                == remove_selected(remove_first(pre, rest[0]), rest.subrange(1, rest.len() as int)));
        }
        i += 1;
    }
    proof {
        assert(selected.deep_view().subrange(n as int, n as int) =~= Seq::<Seq<char>>::empty());
    }
    out
}

} // verus!
