//! Text helpers: comparison, joining, decimal spelling.
use vstd::prelude::*;
use vstd::string::*;
use vstd::utf8::*;

verus! {

/// The texts of `parts` with `sep` between neighbours.
pub open spec fn joined(parts: Seq<Seq<char>>, sep: Seq<char>) -> Seq<char>
    decreases parts.len(),
{
    if parts.len() == 0 {
        Seq::empty()
    } else if parts.len() == 1 {
        parts[0]
    } else {
        joined(parts.drop_last(), sep) + sep + parts.last()
    }
}

/// The views of a sequence of strings.
pub open spec fn texts(parts: Seq<String>) -> Seq<Seq<char>> {
    parts.map_values(|s: String| s@)
}

/// The decimal digit `d`, for `0 <= d <= 9`.
pub open spec fn digit_char(d: int) -> char {
    ('0' as int + d) as char
}

/// The shortest decimal spelling of `n`.
pub open spec fn decimal_text(n: nat) -> Seq<char>
    decreases n,
{
    if n < 10 {
        seq![digit_char(n as int)]
    } else {
        decimal_text(n / 10) + seq![digit_char((n % 10) as int)]
    }
}

/// The shortest decimal spelling of `i`, with a sign where it is negative.
pub open spec fn integer_text(i: int) -> Seq<char> {
    if i < 0 {
        "-"@ + decimal_text((-i) as nat)
    } else {
        decimal_text(i as nat)
    }
}

/// Lexicographic order of byte sequences.
pub open spec fn bytes_before(a: Seq<u8>, b: Seq<u8>) -> bool {
    exists|k: int| #[trigger] first_difference(a, b, k)
}

/// `a` and `b` agree below `k`, and `a` ends or is smaller at `k`.
pub open spec fn first_difference(a: Seq<u8>, b: Seq<u8>, k: int) -> bool {
    &&& 0 <= k < b.len()
    &&& k <= a.len()
    &&& forall|i: int| 0 <= i < k ==> a[i] == b[i]
    &&& k < a.len() ==> a[k] < b[k]
}

/// The order of strings: that of their UTF-8 bytes.
pub open spec fn text_before(a: Seq<char>, b: Seq<char>) -> bool {
    bytes_before(encode_utf8(a), encode_utf8(b))
}

/// Whether two string slices hold the same text.
pub fn same_text(a: &str, b: &str) -> (r: bool)
    ensures
        r == (a@ == b@),
{
    a.to_owned() == b.to_owned()
}

/// Whether two optional strings hold the same text.
pub fn same_optional_text(a: &Option<String>, b: &Option<String>) -> (r: bool)
    ensures
        r == (optional_text(*a) == optional_text(*b)),
{
    match (a, b) {
        (Some(x), Some(y)) => same_text(x.as_str(), y.as_str()),
        (None, None) => true,
        _ => false,
    }
}

/// The view of an optional string.
pub open spec fn optional_text(s: Option<String>) -> Option<Seq<char>> {
    match s {
        Some(t) => Some(t@),
        None => None,
    }
}

/// Whether `a` comes before `b` in the order of strings.
pub fn comes_before(a: &str, b: &str) -> (r: bool)
    ensures
        r == text_before(a@, b@),
{
    let x = a.as_bytes();
    let y = b.as_bytes();
    let mut i: usize = 0;
    while i < x.len() && i < y.len() && x[i] == y[i]
        invariant
            i <= x@.len(),
            i <= y@.len(),
            forall|j: int| 0 <= j < i ==> x@[j] == y@[j],
        decreases x@.len() - i,
    {
        i = i + 1;
    }
    let r = i < y.len() && (i >= x.len() || x[i] < y[i]);
    proof {
        let p = encode_utf8(a@);
        let q = encode_utf8(b@);
        if r {
            assert(first_difference(p, q, i as int));
        } else {
            assert forall|k: int| !#[trigger] first_difference(p, q, k) by {
                if first_difference(p, q, k) {
                    if k < i {
                        assert(p[k] == q[k]);
                    } else if k > i {
                        assert(p[i as int] == q[i as int]);
                    }
                }
            }
        }
    }
    r
}

/// The order of strings is irreflexive, transitive and total.
pub proof fn lemma_text_before_is_strict_total_order(a: Seq<char>, b: Seq<char>, c: Seq<char>)
    ensures
        !text_before(a, a),
        text_before(a, b) && text_before(b, c) ==> text_before(a, c),
        text_before(a, b) || text_before(b, a) || a == b,
        !(text_before(a, b) && text_before(b, a)),
{
    let p = encode_utf8(a);
    let q = encode_utf8(b);
    let s = encode_utf8(c);
    lemma_bytes_before_trans(p, q, s);
    lemma_bytes_before_trans(p, q, p);
    lemma_bytes_before_irreflexive(p);
    if !text_before(a, b) && !text_before(b, a) {
        lemma_bytes_total(p, q, 0);
        encode_utf8_decode_utf8(a);
        encode_utf8_decode_utf8(b);
    }
}

proof fn lemma_bytes_before_irreflexive(p: Seq<u8>)
    ensures
        !bytes_before(p, p),
{
    if bytes_before(p, p) {
        let k = choose|k: int| first_difference(p, p, k);
        assert(first_difference(p, p, k));
    }
}

proof fn lemma_bytes_before_trans(p: Seq<u8>, q: Seq<u8>, s: Seq<u8>)
    ensures
        bytes_before(p, q) && bytes_before(q, s) ==> bytes_before(p, s),
{
    if bytes_before(p, q) && bytes_before(q, s) {
        let j = choose|k: int| first_difference(p, q, k);
        let k = choose|k: int| first_difference(q, s, k);
        let m = if j <= k { j } else { k };
        assert(first_difference(p, s, m));
    }
}

proof fn lemma_bytes_total(p: Seq<u8>, q: Seq<u8>, k: int)
    requires
        0 <= k <= p.len(),
        k <= q.len(),
        forall|i: int| 0 <= i < k ==> p[i] == q[i],
        !bytes_before(p, q),
        !bytes_before(q, p),
    ensures
        p == q,
    decreases p.len() - k,
{
    assert(!first_difference(p, q, k));
    assert(!first_difference(q, p, k));
    if k < p.len() {
        lemma_bytes_total(p, q, k + 1);
    } else {
        assert(p =~= q);
    }
}

/// Joins strings with a separator.
pub fn join_texts(parts: &Vec<String>, sep: &str) -> (r: String)
    ensures
        r@ == joined(texts(parts@), sep@),
{
    let mut out = String::new();
    let mut i: usize = 0;
    while i < parts.len()
        invariant
            i <= parts@.len(),
            out@ == joined(texts(parts@.take(i as int)), sep@),
        decreases parts@.len() - i,
    {
        proof {
            let head = texts(parts@.take(i + 1));
            assert(head.drop_last() =~= texts(parts@.take(i as int)));
            assert(head.last() == parts@[i as int]@);
            assert(i == 0 ==> head =~= seq![parts@[0]@]);
            assert(i == 0 ==> out@ =~= Seq::<char>::empty());
        }
        if i > 0 {
            out.append(sep);
        }
        out.append(parts[i].as_str());
        proof {
            assert(i == 0 ==> out@ =~= parts@[0]@);
        }
        i = i + 1;
    }
    proof {
        assert(parts@.take(i as int) =~= parts@);
    }
    out
}

fn digit_text(d: u64) -> (r: &'static str)
    requires
        d < 10,
    ensures
        r@ == seq![digit_char(d as int)],
{
    proof {
        reveal_strlit("0");
        reveal_strlit("1");
        reveal_strlit("2");
        reveal_strlit("3");
        reveal_strlit("4");
        reveal_strlit("5");
        reveal_strlit("6");
        reveal_strlit("7");
        reveal_strlit("8");
        reveal_strlit("9");
    }
    let r = if d == 0 {
        "0"
    } else if d == 1 {
        "1"
    } else if d == 2 {
        "2"
    } else if d == 3 {
        "3"
    } else if d == 4 {
        "4"
    } else if d == 5 {
        "5"
    } else if d == 6 {
        "6"
    } else if d == 7 {
        "7"
    } else if d == 8 {
        "8"
    } else {
        "9"
    };
    proof {
        assert(r@ =~= seq![digit_char(d as int)]);
    }
    r
}

/// Spells an unsigned number in decimal.
pub fn spell_unsigned(n: u64) -> (r: String)
    ensures
        r@ == decimal_text(n as nat),
    decreases n,
{
    if n < 10 {
        digit_text(n).to_owned()
    } else {
        spell_unsigned(n / 10).concat(digit_text(n % 10))
    }
}

/// Spells a signed number in decimal.
pub fn spell_signed(n: i64) -> (r: String)
    ensures
        r@ == integer_text(n as int),
{
    if n < 0 {
        let magnitude: u64 = if n == i64::MIN {
            0x8000_0000_0000_0000
        } else {
            (-n) as u64
        };
        "-".to_owned().concat(spell_unsigned(magnitude).as_str())
    } else {
        spell_unsigned(n as u64)
    }
}

/// Numbers are spelled in base ten: a digit by itself, and a longer number by the
/// number without its last digit and then that digit; a negative number by a sign
/// and its magnitude.
pub proof fn law_numbers_are_spelled_in_base_ten(n: nat, d: nat)
    requires
        d < 10,
    ensures
        n > 0 ==> decimal_text(10 * n + d) == decimal_text(n) + decimal_text(d),
        d == 0 ==> decimal_text(d) == seq!['0'],
        d == 1 ==> decimal_text(d) == seq!['1'],
        d == 2 ==> decimal_text(d) == seq!['2'],
        d == 3 ==> decimal_text(d) == seq!['3'],
        d == 4 ==> decimal_text(d) == seq!['4'],
        d == 5 ==> decimal_text(d) == seq!['5'],
        d == 6 ==> decimal_text(d) == seq!['6'],
        d == 7 ==> decimal_text(d) == seq!['7'],
        d == 8 ==> decimal_text(d) == seq!['8'],
        d == 9 ==> decimal_text(d) == seq!['9'],
        integer_text(n as int) == decimal_text(n),
        n > 0 ==> integer_text(-(n as int)) == seq!['-'] + decimal_text(n),
{
    reveal_strlit("-");
    assert("-"@ =~= seq!['-']);
    let m = 10 * n + d;
    assert(m / 10 == n && m % 10 == d);
}

/// Texts are joined by putting the separator between neighbours and nowhere else.
pub proof fn law_texts_are_joined(
    a: Seq<Seq<char>>,
    b: Seq<Seq<char>>,
    one: Seq<char>,
    sep: Seq<char>,
)
    ensures
        joined(Seq::empty(), sep) == Seq::<char>::empty(),
        joined(seq![one], sep) == one,
        a.len() > 0 && b.len() > 0 ==> joined(a + b, sep) == joined(a, sep) + sep + joined(b, sep),
    decreases b.len(),
{
    if a.len() > 0 && b.len() > 0 {
        let all = a + b;
        assert(all.last() == b.last());
        if b.len() == 1 {
            assert(all.drop_last() =~= a);
        } else {
            law_texts_are_joined(a, b.drop_last(), one, sep);
            assert(all.drop_last() =~= a + b.drop_last());
            assert(joined(all, sep) =~= joined(a, sep) + sep + joined(b, sep));
        }
    }
}

/// A text comes before another, and not behind it, where at the first place at
/// which their bytes differ it has the smaller byte or has ended.
pub proof fn law_texts_are_ordered_by_their_bytes(a: Seq<char>, b: Seq<char>, k: int)
    requires
        0 <= k < encode_utf8(b).len(),
        k <= encode_utf8(a).len(),
        forall|i: int| 0 <= i < k ==> #[trigger] encode_utf8(a)[i] == encode_utf8(b)[i],
        k < encode_utf8(a).len() ==> encode_utf8(a)[k] < encode_utf8(b)[k],
    ensures
        text_before(a, b),
        !text_before(b, a),
{
    assert(first_difference(encode_utf8(a), encode_utf8(b), k));
    lemma_text_before_is_strict_total_order(a, b, a);
}

} // verus!
