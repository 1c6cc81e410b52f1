use vstd::prelude::*;

verus! {

/// A sequence of identifiers contains `x`.
pub open spec fn contains_id(ids: Seq<Seq<char>>, x: Seq<char>) -> bool {
    exists|i: int| 0 <= i < ids.len() && ids[i] == x
}

/// No identifier occurs twice in the sequence.
pub open spec fn distinct_ids(ids: Seq<Seq<char>>) -> bool {
    forall|i: int, j: int| 0 <= i < j < ids.len() ==> ids[i] != ids[j]
}

/// Adding an identifier to a duplicate-free set.
pub open spec fn insert_id(ids: Seq<Seq<char>>, x: Seq<char>) -> Seq<Seq<char>> {
    if contains_id(ids, x) {
        ids
    } else {
        ids.push(x)
    }
}

/// Removing an identifier from a duplicate-free set.
pub open spec fn take_out_id(ids: Seq<Seq<char>>, x: Seq<char>) -> Seq<Seq<char>> {
    if contains_id(ids, x) {
        ids.remove(choose|i: int| 0 <= i < ids.len() && ids[i] == x)
    } else {
        ids
    }
}

/// Strict lexicographic order on texts, by code point: the order in which
/// string-keyed ordered maps yield their keys.
pub open spec fn spec_lex_lt(a: Seq<char>, b: Seq<char>) -> bool
    decreases a.len(),
{
    if b.len() == 0 {
        false
    } else if a.len() == 0 {
        true
    } else if a[0] == b[0] {
        spec_lex_lt(a.drop_first(), b.drop_first())
    } else {
        (a[0] as u32) < (b[0] as u32)
    }
}

/// The order is total: two texts compare one way, the other, or are equal.
pub proof fn lemma_lex_trichotomy(a: Seq<char>, b: Seq<char>)
    ensures
        spec_lex_lt(a, b) || spec_lex_lt(b, a) || a == b,
    decreases a.len(),
{
    if a.len() == 0 && b.len() == 0 {
        assert(a =~= b);
    } else if a.len() > 0 && b.len() > 0 && a[0] == b[0] {
        lemma_lex_trichotomy(a.drop_first(), b.drop_first());
        if !spec_lex_lt(a, b) && !spec_lex_lt(b, a) {
            assert(a.drop_first() == b.drop_first());
            assert forall|i: int| 0 <= i < a.len() implies a[i] == b[i] by {
                if i >= 1 {
                    assert(a.drop_first()[i - 1] == b.drop_first()[i - 1]);
                }
            }
            assert(a =~= b);
        }
    } else if a.len() > 0 && b.len() > 0 {
        assert((a[0] as u32) != (b[0] as u32)) by {
            vstd::utf8::char_u32_cast(a[0], a[0] as u32);
            vstd::utf8::char_u32_cast(b[0], b[0] as u32);
        }
    }
}

/// The order is strict: a text never precedes itself, nor both ways.
pub proof fn lemma_lex_asymmetric(a: Seq<char>, b: Seq<char>)
    requires
        spec_lex_lt(a, b),
    ensures
        !spec_lex_lt(b, a),
        a != b,
    decreases a.len(),
{
    if a.len() > 0 && b.len() > 0 && a[0] == b[0] {
        lemma_lex_asymmetric(a.drop_first(), b.drop_first());
        if a == b {
            assert(a.drop_first() =~= b.drop_first());
        }
    }
}

/// The order is transitive.
pub proof fn lemma_lex_transitive(a: Seq<char>, b: Seq<char>, c: Seq<char>)
    requires
        spec_lex_lt(a, b),
        spec_lex_lt(b, c),
    ensures
        spec_lex_lt(a, c),
    decreases a.len(),
{
    if a.len() > 0 && b.len() > 0 && c.len() > 0 && a[0] == b[0] && b[0] == c[0] {
        lemma_lex_transitive(a.drop_first(), b.drop_first(), c.drop_first());
    }
}

/// Compares two texts in the lexicographic order.
pub fn lex_less(a: &str, b: &str) -> (r: bool)
    ensures
        r == spec_lex_lt(a@, b@),
{
    let an = a.unicode_len();
    let bn = b.unicode_len();
    let mut i: usize = 0;
    proof {
        assert(a@.skip(0) =~= a@);
        assert(b@.skip(0) =~= b@);
    }
    while i < an && i < bn
        invariant
            an == a@.len(),
            bn == b@.len(),
            i <= an,
            i <= bn,
            spec_lex_lt(a@, b@) == spec_lex_lt(a@.skip(i as int), b@.skip(i as int)),
        decreases an - i,
    {
        let ca = a.get_char(i);
        let cb = b.get_char(i);
        if ca != cb {
            proof {
                assert(a@.skip(i as int)[0] == ca);
                assert(b@.skip(i as int)[0] == cb);
            }
            return (ca as u32) < (cb as u32);
        }
        proof {
            assert(a@.skip(i as int).drop_first() =~= a@.skip(i as int + 1));
            assert(b@.skip(i as int).drop_first() =~= b@.skip(i as int + 1));
            assert(a@.skip(i as int)[0] == b@.skip(i as int)[0]);
        }
        i = i + 1;
    }
    proof {
        assert(a@.skip(i as int).len() == an - i);
        assert(b@.skip(i as int).len() == bn - i);
    }
    an < bn
}

/// Insertion keeps a set duplicate-free, and afterwards the set holds `x`.
pub proof fn lemma_insert_id_distinct(ids: Seq<Seq<char>>, x: Seq<char>)
    requires
        distinct_ids(ids),
    ensures
        distinct_ids(insert_id(ids, x)),
        contains_id(insert_id(ids, x), x),
        forall|y: Seq<char>| contains_id(ids, y) ==> contains_id(insert_id(ids, x), y),
{
    let out = insert_id(ids, x);
    if !contains_id(ids, x) {
        assert(out[ids.len() as int] == x);
        assert forall|i: int, j: int| 0 <= i < j < out.len() implies out[i] != out[j] by {
            if j < ids.len() {
                assert(ids[i] != ids[j]);
            }
        }
        assert forall|y: Seq<char>| contains_id(ids, y) implies contains_id(out, y) by {
            let w = choose|i: int| 0 <= i < ids.len() && ids[i] == y;
            assert(out[w] == y);
        }
    }
}

/// Removal keeps a set duplicate-free, and afterwards `x` is gone.
pub proof fn lemma_take_out_id_distinct(ids: Seq<Seq<char>>, x: Seq<char>)
    requires
        distinct_ids(ids),
    ensures
        distinct_ids(take_out_id(ids, x)),
        !contains_id(take_out_id(ids, x), x),
{
    let out = take_out_id(ids, x);
    if contains_id(ids, x) {
        let i = choose|i: int| 0 <= i < ids.len() && ids[i] == x;
        assert forall|a: int, b: int| 0 <= a < b < out.len() implies out[a] != out[b] by {
            let a0 = if a < i { a } else { a + 1 };
            let b0 = if b < i { b } else { b + 1 };
            assert(ids[a0] != ids[b0]);
        }
        assert forall|a: int| 0 <= a < out.len() implies out[a] != x by {
            let a0 = if a < i { a } else { a + 1 };
            assert(out[a] == ids[a0]);
            if a0 != i && ids[a0] == x {
                if a0 < i {
                    assert(ids[a0] != ids[i]);
                } else {
                    assert(ids[i] != ids[a0]);
                }
            }
        }
    }
}

/// True when two string slices hold the same characters.
pub fn str_eq(a: &str, b: &str) -> (r: bool)
    ensures
        r == (a@ == b@),
{
    let alen = a.unicode_len();
    let blen = b.unicode_len();
    if alen != blen {
        return false;
    }
    let mut i: usize = 0;
    while i < alen
        invariant
            alen == a@.len(),
            blen == b@.len(),
            alen == blen,
            i <= alen,
            forall|k: int| 0 <= k < i ==> a@[k] == b@[k],
        decreases alen - i,
    {
        if a.get_char(i) != b.get_char(i) {
            return false;
        }
        i = i + 1;
    }
    proof {
        assert(a@ =~= b@);
    }
    true
}

/// Whether the vector holds a string equal to `x`.
pub fn vec_contains_str(v: &Vec<String>, x: &str) -> (r: bool)
    ensures
        r == contains_id(v.deep_view(), x@),
{
    let mut i: usize = 0;
    while i < v.len()
        invariant
            i <= v@.len(),
            v.deep_view().len() == v@.len(),
            forall|k: int| 0 <= k < v@.len() ==> v.deep_view()[k] == v@[k]@,
            forall|k: int| 0 <= k < i ==> v@[k]@ != x@,
        decreases v@.len() - i,
    {
        if str_eq(v[i].as_str(), x) {
            proof {
                assert(v.deep_view()[i as int] == x@);
            }
            return true;
        }
        i = i + 1;
    }
    false
}

/// Finds the first index holding a string equal to `x`.
pub fn index_of_str(v: &Vec<String>, x: &str) -> (r: Option<usize>)
    ensures
        match r {
            Some(i) => {
                &&& i < v.deep_view().len()
                &&& v.deep_view()[i as int] == x@
                &&& forall|k: int| 0 <= k < i ==> v.deep_view()[k] != x@
            },
            None => !contains_id(v.deep_view(), x@),
        },
{
    let mut i: usize = 0;
    while i < v.len()
        invariant
            i <= v@.len(),
            v.deep_view().len() == v@.len(),
            forall|k: int| 0 <= k < v@.len() ==> v.deep_view()[k] == v@[k]@,
            forall|k: int| 0 <= k < i ==> v@[k]@ != x@,
        decreases v@.len() - i,
    {
        if str_eq(v[i].as_str(), x) {
            proof {
                assert(v.deep_view()[i as int] == x@);
            }
            return Some(i);
        }
        i = i + 1;
    }
    None
}

/// Copies a vector of strings.
pub fn clone_string_vec(v: &Vec<String>) -> (r: Vec<String>)
    ensures
        r.deep_view() == v.deep_view(),
{
    let mut r: Vec<String> = Vec::new();
    let mut i: usize = 0;
    while i < v.len()
        invariant
            i <= v@.len(),
            r.deep_view().len() == i,
            forall|k: int| 0 <= k < i ==> r.deep_view()[k] == v.deep_view()[k],
            forall|k: int| 0 <= k < v@.len() ==> v.deep_view()[k] == v@[k]@,
        decreases v@.len() - i,
    {
        r.push(v[i].clone());
        i = i + 1;
    }
    proof {
        assert(r.deep_view() =~= v.deep_view());
    }
    r
}

/// The character standing for one decimal digit.
pub open spec fn spec_digit(d: int) -> char {
    if d == 0 {
        '0'
    } else if d == 1 {
        '1'
    } else if d == 2 {
        '2'
    } else if d == 3 {
        '3'
    } else if d == 4 {
        '4'
    } else if d == 5 {
        '5'
    } else if d == 6 {
        '6'
    } else if d == 7 {
        '7'
    } else if d == 8 {
        '8'
    } else {
        '9'
    }
}

/// The decimal rendering of a natural number, most significant digit first.
pub open spec fn spec_dec(n: nat) -> Seq<char>
    decreases n,
{
    if n < 10 {
        seq![spec_digit(n as int)]
    } else {
        spec_dec((n / 10) as nat).push(spec_digit((n % 10) as int))
    }
}

/// The decimal rendering padded on the left to two digits.
pub open spec fn spec_dec2(n: nat) -> Seq<char> {
    if n < 10 {
        seq!['0'].add(spec_dec(n))
    } else {
        spec_dec(n)
    }
}

fn digit_str(d: u64) -> (r: &'static str)
    requires
        d < 10,
    ensures
        r@ =~= seq![spec_digit(d as int)],
{
    proof {
        reveal_strlit("0");
        reveal_strlit("1");
        reveal_strlit("2");
        reveal_strlit("3");
        reveal_strlit("4");
        reveal_strlit("5");
        reveal_strlit("6");
        reveal_strlit("7");
        reveal_strlit("8");
        reveal_strlit("9");
    }
    if d == 0 {
        "0"
    } else if d == 1 {
        "1"
    } else if d == 2 {
        "2"
    } else if d == 3 {
        "3"
    } else if d == 4 {
        "4"
    } else if d == 5 {
        "5"
    } else if d == 6 {
        "6"
    } else if d == 7 {
        "7"
    } else if d == 8 {
        "8"
    } else {
        "9"
    }
}

/// Renders a number in decimal.
pub fn u64_to_dec(n: u64) -> (r: String)
    ensures
        r@ == spec_dec(n as nat),
    decreases n,
{
    if n < 10 {
        digit_str(n).to_owned()
    } else {
        let mut s = u64_to_dec(n / 10);
        s.append(digit_str(n % 10));
        proof {
            assert(s@ =~= spec_dec(n as nat));
        }
        s
    }
}

/// Renders a number in decimal, left-padded to at least two digits.
pub fn u64_to_dec2(n: u64) -> (r: String)
    ensures
        r@ == spec_dec2(n as nat),
{
    if n < 10 {
        proof {
            reveal_strlit("0");
        }
        let mut s = String::from_str("0");
        s.append(u64_to_dec(n).as_str());
        proof {
            assert(s@ =~= spec_dec2(n as nat));
        }
        s
    } else {
        u64_to_dec(n)
    }
}

/// The wall-clock reading `HH:MM:SS` for a non-negative epoch time in milliseconds.
pub open spec fn spec_clock(ms: int) -> Seq<char> {
    let total = ms / 1000;
    spec_dec2(((total / 3600) % 24) as nat).add(seq![':']).add(
        spec_dec2(((total / 60) % 60) as nat),
    ).add(seq![':']).add(spec_dec2((total % 60) as nat))
}

/// Renders the time of day `HH:MM:SS` from an epoch time in milliseconds.
pub fn format_clock(ms: i64) -> (r: String)
    requires
        ms >= 0,
    ensures
        r@ == spec_clock(ms as int),
{
    proof {
        reveal_strlit(":");
    }
    let total = (ms as u64) / 1000;
    let mut s = u64_to_dec2((total / 3600) % 24);
    s.append(":");
    s.append(u64_to_dec2((total / 60) % 60).as_str());
    s.append(":");
    s.append(u64_to_dec2(total % 60).as_str());
    proof {
        assert(s@ =~= spec_clock(ms as int));
    }
    s
}

/// A duration in milliseconds rendered as seconds with one decimal place,
/// truncating toward zero.
pub open spec fn spec_secs1(ms: int) -> Seq<char> {
    spec_dec((ms / 1000) as nat).add(seq!['.']).add(seq![spec_digit((ms / 100) % 10)])
}

/// Renders a non-negative duration in milliseconds as seconds with one
/// decimal place, truncating.
pub fn format_secs1(ms: i64) -> (r: String)
    requires
        ms >= 0,
    ensures
        r@ == spec_secs1(ms as int),
{
    proof {
        reveal_strlit(".");
    }
    let m = ms as u64;
    let mut s = u64_to_dec(m / 1000);
    s.append(".");
    s.append(digit_str((m / 100) % 10));
    proof {
        assert((m / 100) % 10 == ((ms as int) / 100) % 10) by (nonlinear_arith)
            requires
                m == ms && ms >= 0,
        ;
        assert(s@ =~= spec_secs1(ms as int));
    }
    s
}

} // verus!
