use vstd::prelude::*;

verus! {

/// The line delimiter.
pub const NEWLINE: u8 = 10;

/// Position, in `s`, of the `n`-th occurrence of `b` counted from the end
/// of `s` (the last byte being the first candidate). `None` when `s` holds
/// fewer than `n` occurrences, and always for `n == 0`.
pub open spec fn nth_from_end(s: Seq<u8>, b: u8, n: nat) -> Option<nat>
    decreases s.len(),
{
    if n == 0 || s.len() == 0 {
        None
    } else if s.last() == b {
        if n == 1 {
            Some((s.len() - 1) as nat)
        } else {
            nth_from_end(s.drop_last(), b, (n - 1) as nat)
        }
    } else {
        nth_from_end(s.drop_last(), b, n)
    }
}

/// What a backward search finds: the `n`-th occurrence of `b` from the end
/// of `s`, where with `ignore_last` the last byte of `s` is never counted.
pub open spec fn rfind_spec(s: Seq<u8>, b: u8, n: nat, ignore_last: bool) -> Option<nat> {
    if ignore_last && s.len() > 0 {
        nth_from_end(s.drop_last(), b, n)
    } else {
        nth_from_end(s, b, n)
    }
}

/// An optional offset as a natural number.
pub open spec fn opt_nat(o: Option<u64>) -> Option<nat> {
    match o {
        Some(k) => Some(k as nat),
        None => None,
    }
}

/// Being a prefix is transitive.
pub proof fn lemma_prefix_trans(a: Seq<u8>, b: Seq<u8>, c: Seq<u8>)
    requires
        a.is_prefix_of(b),
        b.is_prefix_of(c),
    ensures
        a.is_prefix_of(c),
{
    assert forall|i: int| 0 <= i < a.len() implies #[trigger] a[i] == c[i] by {
        assert(a[i] == b[i]);
    }
    assert(a =~= c.subrange(0, a.len() as int));
}

/// Number of occurrences of `b` in `s`.
pub open spec fn count_of(s: Seq<u8>, b: u8) -> nat
    decreases s.len(),
{
    if s.len() == 0 {
        0
    } else {
        count_of(s.drop_last(), b) + if s.last() == b {
            1nat
        } else {
            0nat
        }
    }
}

/// Where the last `n` lines of `s` start: just after the `n`-th newline from
/// the end, a newline that ends `s` not counted; at 0 when `s` has fewer
/// lines; at the end of `s` when `n` is zero.
pub open spec fn tail_start(s: Seq<u8>, n: nat) -> nat {
    if n == 0 {
        s.len()
    } else {
        match rfind_spec(s, NEWLINE, n, true) {
            Some(k) => k + 1,
            None => 0,
        }
    }
}

/// The last `n` lines of `s`.
pub open spec fn last_lines(s: Seq<u8>, n: nat) -> Seq<u8> {
    s.subrange(tail_start(s, n) as int, s.len() as int)
}

/// The search from the end finds an occurrence of `b` exactly when there are
/// `n` of them from it to the end, and finds none exactly when `s` holds
/// fewer than `n`.
pub proof fn lemma_nth_from_end(s: Seq<u8>, b: u8, n: nat)
    requires
        n >= 1,
    ensures
        nth_from_end(s, b, n) matches Some(k) ==> {
            &&& k < s.len()
            &&& s[k as int] == b
            &&& count_of(s.subrange(k as int, s.len() as int), b) == n
        },
        nth_from_end(s, b, n) is None <==> count_of(s, b) < n,
    decreases s.len(),
{
    if s.len() > 0 {
        let t = s.drop_last();
        if s.last() == b && n == 1 {
            let one = s.subrange(s.len() - 1, s.len() as int);
            assert(one.drop_last() =~= Seq::<u8>::empty());
            assert(count_of(one.drop_last(), b) == 0);
            assert(count_of(one, b) == 1);
            assert(nth_from_end(s, b, n) == Some((s.len() - 1) as nat));
        } else {
            let m: nat = if s.last() == b { (n - 1) as nat } else { n };
            if m >= 1 {
                lemma_nth_from_end(t, b, m);
            }
            if let Some(k) = nth_from_end(t, b, m) {
                assert(s.subrange(k as int, s.len() as int).drop_last() =~= t.subrange(
                    k as int,
                    t.len() as int,
                ));
                assert(s.subrange(k as int, s.len() as int).last() == s.last());
                assert(nth_from_end(s, b, n) == Some(k));
            }
        }
    }
}

/// Counting from the first byte instead of the last.
pub proof fn lemma_count_first(s: Seq<u8>, b: u8)
    requires
        s.len() > 0,
    ensures
        count_of(s, b) == count_of(s.subrange(1, s.len() as int), b) + if s[0] == b {
            1nat
        } else {
            0nat
        },
    decreases s.len(),
{
    let rest = s.subrange(1, s.len() as int);
    if s.len() == 1 {
        assert(s.drop_last() =~= Seq::<u8>::empty());
        assert(rest =~= Seq::<u8>::empty());
    } else {
        lemma_count_first(s.drop_last(), b);
        assert(rest.drop_last() =~= s.drop_last().subrange(1, s.len() - 1));
    }
}

/// What the last `n >= 1` lines of `s` are. When `s`, its final byte set
/// aside, holds at least `n` newlines, they are a proper suffix of `s` that
/// starts just after a newline and holds `n - 1` newlines before its own
/// final byte, so exactly `n` lines. Otherwise they are all of `s`.
pub proof fn lemma_last_lines(s: Seq<u8>, n: nat)
    requires
        n >= 1,
    ensures
        ({
            let t = last_lines(s, n);
            let enough = s.len() > 0 && count_of(s.drop_last(), NEWLINE) >= n;
            &&& t == s.subrange(s.len() - t.len(), s.len() as int)
            &&& enough ==> {
                &&& 0 < t.len() < s.len()
                &&& s[s.len() - t.len() - 1] == NEWLINE
                &&& count_of(t.drop_last(), NEWLINE) == n - 1
            }
            &&& !enough ==> t == s
        }),
{
    if s.len() > 0 {
        let d = s.drop_last();
        lemma_nth_from_end(d, NEWLINE, n);
        if let Some(k) = nth_from_end(d, NEWLINE, n) {
            let from_k = d.subrange(k as int, d.len() as int);
            lemma_count_first(from_k, NEWLINE);
            assert(from_k.subrange(1, from_k.len() as int) =~= d.subrange((k + 1) as int, d.len() as int));
            let t = last_lines(s, n);
            assert(t =~= s.subrange((k + 1) as int, s.len() as int));
            assert(t.drop_last() =~= d.subrange((k + 1) as int, d.len() as int));
        } else {
            assert(last_lines(s, n) =~= s);
        }
    } else {
        assert(last_lines(s, n) =~= s);
    }
}

/// An empty source holds no occurrence of anything, and no lines.
pub proof fn lemma_empty_source(b: u8, n: nat, ignore_last: bool)
    ensures
        rfind_spec(Seq::<u8>::empty(), b, n, ignore_last) is None,
        last_lines(Seq::<u8>::empty(), n) == Seq::<u8>::empty(),
{
    assert(last_lines(Seq::<u8>::empty(), n) =~= Seq::<u8>::empty());
}

} // verus!
