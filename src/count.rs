//! A bound on how many distinct placements a search can meet, which makes
//! every search finite.
use vstd::arithmetic::div_mod::lemma_fundamental_div_mod_converse;
use vstd::prelude::*;
use vstd::relations::injective_on;
use vstd::set_lib::{lemma_int_range, lemma_len_subset, lemma_map_size, set_int_range};
use crate::dedup::below;

verus! {

/// `b` to the power `e`.
pub open spec fn power(b: nat, e: nat) -> nat
    decreases e,
{
    if e == 0 {
        1
    } else {
        b * power(b, (e - 1) as nat)
    }
}

/// The number whose base-`b` digits, all non-zero, are the values of `s`
/// plus one: distinct sequences get distinct numbers.
pub open spec fn code(s: Seq<usize>, b: nat) -> nat
    decreases s.len(),
{
    if s.len() == 0 {
        0
    } else {
        code(s.drop_last(), b) * b + (s.last() + 1) as nat
    }
}

proof fn lemma_power_mono(b: nat, e1: nat, e2: nat)
    requires
        b >= 1,
        e1 <= e2,
    ensures
        power(b, e1) <= power(b, e2),
    decreases e2,
{
    if e1 < e2 {
        lemma_power_mono(b, e1, (e2 - 1) as nat);
        let p = power(b, (e2 - 1) as nat);
        assert(p <= b * p) by (nonlinear_arith)
            requires
                b >= 1,
        ;
    }
}

proof fn lemma_code_bound(s: Seq<usize>, b: nat)
    requires
        b >= 1,
        below(s, (b - 1) as nat),
    ensures
        code(s, b) < power(b, s.len()),
    decreases s.len(),
{
    if s.len() > 0 {
        let d = s.drop_last();
        assert(below(d, (b - 1) as nat)) by {
            assert forall|i: int| 0 <= i < d.len() implies #[trigger] d[i] < (b - 1) as nat by {
                assert(d[i] == s[i]);
            }
        }
        lemma_code_bound(d, b);
        let x = (s.last() + 1) as nat;
        assert(s[s.len() - 1] < b - 1);
        let p = power(b, d.len());
        let cd = code(d, b);
        assert(cd * b + x < b * p) by (nonlinear_arith)
            requires
                cd < p,
                1 <= x < b,
        ;
    }
}

proof fn lemma_code_injective(s: Seq<usize>, t: Seq<usize>, b: nat)
    requires
        b >= 1,
        below(s, (b - 1) as nat),
        below(t, (b - 1) as nat),
        code(s, b) == code(t, b),
    ensures
        s == t,
    decreases s.len(),
{
    if s.len() > 0 && t.len() > 0 {
        let ds = s.drop_last();
        let dt = t.drop_last();
        assert(s[s.len() - 1] < b - 1 && t[t.len() - 1] < b - 1);
        let x = (s.last() + 1) as int;
        let y = (t.last() + 1) as int;
        lemma_fundamental_div_mod_converse(code(s, b) as int, b as int, code(ds, b) as int, x);
        lemma_fundamental_div_mod_converse(code(t, b) as int, b as int, code(dt, b) as int, y);
        assert(below(ds, (b - 1) as nat)) by {
            assert forall|i: int| 0 <= i < ds.len() implies #[trigger] ds[i] < (b - 1) as nat by {
                assert(ds[i] == s[i]);
            }
        }
        assert(below(dt, (b - 1) as nat)) by {
            assert forall|i: int| 0 <= i < dt.len() implies #[trigger] dt[i] < (b - 1) as nat by {
                assert(dt[i] == t[i]);
            }
        }
        lemma_code_injective(ds, dt, b);
        assert(s =~= ds.push(s.last()));
        assert(t =~= dt.push(t.last()));
    } else if s.len() > 0 {
        assert(s[s.len() - 1] < b - 1);
        let cd = code(s.drop_last(), b);
        assert(cd * b >= 0) by (nonlinear_arith);
    } else if t.len() > 0 {
        assert(t[t.len() - 1] < b - 1);
        let cd = code(t.drop_last(), b);
        assert(cd * b >= 0) by (nonlinear_arith);
    }
}

/// A finite set of placements of at most `l` rows, with values below `w`,
/// has at most `(w + 1)^l` members.
pub proof fn lemma_bounded_card(s: Set<Seq<usize>>, w: nat, l: nat)
    requires
        s.finite(),
        forall|x: Seq<usize>| #[trigger] s.contains(x) ==> x.len() <= l && below(x, w),
    ensures
        s.len() <= power(w + 1, l),
{
    let b = w + 1;
    let f = |x: Seq<usize>| code(x, b) as int;
    assert(injective_on(f, s)) by {
        assert forall|x: Seq<usize>, y: Seq<usize>|
            s.contains(x) && s.contains(y) && #[trigger] f(x) == #[trigger] f(y) implies x == y by {
            lemma_code_injective(x, y, b);
        }
    }
    let img = s.map(f);
    lemma_map_size(s, img, f);
    let top = power(b, l) as int;
    assert(img.subset_of(set_int_range(0, top))) by {
        assert forall|k: int| img.contains(k) implies set_int_range(0, top).contains(k) by {
            let x = choose|x: Seq<usize>| s.contains(x) && f(x) == k;
            lemma_code_bound(x, b);
            lemma_power_mono(b, x.len(), l);
        }
    }
    lemma_int_range(0, top);
    lemma_len_subset(img, set_int_range(0, top));
}

} // verus!
