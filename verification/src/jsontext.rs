//! Pieces of JSON text: lists of numbers and name-number pairs.

use crate::numtext::is_digit;
use crate::numtext::lemma_decimal;
use crate::numtext::lemma_split_none;
use crate::numtext::lemma_split_push;
use crate::numtext::split;
use crate::text::decimal;
use crate::text::push_decimal;
use crate::text::push_text;
use vstd::prelude::*;

verus! {

/// Numbers with a comma and a space between them.
pub open spec fn number_list(v: Seq<u64>) -> Seq<char>
    decreases v.len(),
{
    if v.len() == 0 {
        Seq::empty()
    } else if v.len() == 1 {
        decimal(v[0] as nat)
    } else {
        number_list(v.drop_last()) + ", "@ + decimal(v.last() as nat)
    }
}

/// Appends numbers with a comma and a space between them.
pub fn push_list(out: &mut String, v: &[u64])
    ensures
        final(out)@ == old(out)@ + number_list(v@),
{
    let ghost start = out@;
    proof {
        assert(v@.take(0) =~= Seq::<u64>::empty());
        assert(start + number_list(v@.take(0)) =~= start);
    }
    for i in 0..v.len()
        invariant
            out@ == start + number_list(v@.take(i as int)),
    {
        proof {
            assert(v@.take(i + 1).drop_last() =~= v@.take(i as int));
        }
        if i > 0 {
            push_text(out, ", ");
        }
        push_decimal(out, v[i]);
        proof {
            assert(out@ =~= start + number_list(v@.take(i + 1)));
        }
    }
    proof {
        assert(v@.take(v@.len() as int) =~= v@);
    }
}

/// A name in quotes, a colon and a number.
pub open spec fn pair_text(name: Seq<char>, n: nat) -> Seq<char> {
    "\""@ + name + "\": "@ + decimal(n)
}

/// Name-number pairs with a comma and a space between them.
pub open spec fn pair_list(v: Seq<(Seq<char>, u32)>) -> Seq<char>
    decreases v.len(),
{
    if v.len() == 0 {
        Seq::empty()
    } else if v.len() == 1 {
        pair_text(v[0].0, v[0].1 as nat)
    } else {
        pair_list(v.drop_last()) + ", "@ + pair_text(v.last().0, v.last().1 as nat)
    }
}

/// The views of name-number pairs.
pub open spec fn pairs_view(v: Seq<(String, u32)>) -> Seq<(Seq<char>, u32)> {
    Seq::new(v.len(), |i: int| (v[i].0@, v[i].1))
}

/// Appends name-number pairs with a comma and a space between them.
pub fn push_pairs(out: &mut String, v: &Vec<(String, u32)>)
    ensures
        final(out)@ == old(out)@ + pair_list(pairs_view(v@)),
{
    let ghost start = out@;
    let ghost all = pairs_view(v@);
    proof {
        assert(all.take(0) =~= Seq::<(Seq<char>, u32)>::empty());
        assert(start + pair_list(all.take(0)) =~= start);
    }
    for i in 0..v.len()
        invariant
            all == pairs_view(v@),
            out@ == start + pair_list(all.take(i as int)),
    {
        proof {
            assert(all.take(i + 1).drop_last() =~= all.take(i as int));
            assert(all[i as int] == (v@[i as int].0@, v@[i as int].1));
        }
        if i > 0 {
            push_text(out, ", ");
        }
        let ghost mid = out@;
        push_text(out, "\"");
        push_text(out, v[i].0.as_str());
        push_text(out, "\": ");
        push_decimal(out, v[i].1 as u64);
        proof {
            assert(out@ =~= mid + pair_text(v@[i as int].0@, v@[i as int].1 as nat));
            assert(out@ =~= start + pair_list(all.take(i + 1)));
        }
    }
    proof {
        assert(all.take(all.len() as int) =~= all);
    }
}

/// A list of numbers holds each of them: parted at the commas, its pieces are the numbers in
/// order, each but the first behind a space.
pub proof fn law_list_holds_its_numbers(v: Seq<u64>)
    requires
        v.len() > 0,
    ensures
        split(number_list(v), ',') == Seq::new(
            v.len(),
            |i: int|
                if i == 0 {
                    decimal(v[0] as nat)
                } else {
                    " "@ + decimal(v[i] as nat)
                },
        ),
    decreases v.len(),
{
    reveal_strlit(", ");
    reveal_strlit(" ");
    let want = Seq::new(
        v.len(),
        |i: int|
            if i == 0 {
                decimal(v[0] as nat)
            } else {
                " "@ + decimal(v[i] as nat)
            },
    );
    let d = decimal(v.last() as nat);
    lemma_decimal(v.last() as nat);
    assert forall|i: int| 0 <= i < d.len() implies #[trigger] d[i] != ',' by {
        assert(is_digit(d[i]));
    }
    if v.len() == 1 {
        lemma_split_none(d, ',');
        assert(seq![d] =~= want);
    } else {
        let front = v.drop_last();
        law_list_holds_its_numbers(front);
        let piece = " "@ + d;
        assert forall|i: int| 0 <= i < piece.len() implies #[trigger] piece[i] != ',' by {
            if i > 0 {
                assert(piece[i] == d[i - 1]);
            }
        }
        assert(number_list(v) =~= number_list(front).push(',') + piece);
        lemma_split_push(number_list(front), ',', piece);
        assert(split(number_list(front), ',').push(piece) =~= want);
    }
}

} // verus!
