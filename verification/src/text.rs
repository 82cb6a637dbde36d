//! Text ordering and rendering: the byte-wise lexicographic order that Rust
//! uses for `str`, sorted sets of texts, and decimal rendering of integers.

use vstd::prelude::*;
use vstd::utf8::*;

verus! {

/// Strict lexicographic order on byte sequences (a proper prefix is smaller).
pub open spec fn bytes_lt(a: Seq<u8>, b: Seq<u8>) -> bool
    decreases a.len(),
{
    if b.len() == 0 {
        false
    } else if a.len() == 0 {
        true
    } else if a[0] != b[0] {
        a[0] < b[0]
    } else {
        bytes_lt(a.drop_first(), b.drop_first())
    }
}

/// The order of Rust's `str`: lexicographic on the UTF-8 bytes.
pub open spec fn text_lt(a: Seq<char>, b: Seq<char>) -> bool {
    bytes_lt(encode_utf8(a), encode_utf8(b))
}

/// The texts of a sequence of strings.
pub open spec fn texts(v: Seq<String>) -> Seq<Seq<char>> {
    v.map_values(|s: String| s@)
}

/// Every text is smaller than every later one: sorted, and no text twice.
pub open spec fn strictly_sorted(s: Seq<Seq<char>>) -> bool {
    forall|i: int, j: int| 0 <= i < j < s.len() ==> text_lt(#[trigger] s[i], #[trigger] s[j])
}

/// No text occurs twice.
pub open spec fn no_duplicates(s: Seq<Seq<char>>) -> bool {
    forall|i: int, j: int| 0 <= i < j < s.len() ==> #[trigger] s[i] != #[trigger] s[j]
}

/// No byte string is below itself.
pub proof fn lemma_bytes_lt_irreflexive(a: Seq<u8>)
    ensures
        !bytes_lt(a, a),
    decreases a.len(),
{
    if a.len() > 0 {
        lemma_bytes_lt_irreflexive(a.drop_first());
    }
}

/// The byte order is transitive.
pub proof fn lemma_bytes_lt_transitive(a: Seq<u8>, b: Seq<u8>, c: Seq<u8>)
    requires
        bytes_lt(a, b),
        bytes_lt(b, c),
    ensures
        bytes_lt(a, c),
    decreases a.len(),
{
    if a.len() > 0 && b.len() > 0 && c.len() > 0 && a[0] == b[0] && b[0] == c[0] {
        lemma_bytes_lt_transitive(a.drop_first(), b.drop_first(), c.drop_first());
    }
}

/// Of two different byte strings, one is below the other.
pub proof fn lemma_bytes_lt_total(a: Seq<u8>, b: Seq<u8>)
    ensures
        a == b || bytes_lt(a, b) || bytes_lt(b, a),
    decreases a.len(),
{
    if a.len() > 0 && b.len() > 0 && a[0] == b[0] {
        lemma_bytes_lt_total(a.drop_first(), b.drop_first());
        if a.drop_first() == b.drop_first() {
            assert(a =~= seq![a[0]] + a.drop_first());
            assert(b =~= seq![b[0]] + b.drop_first());
        }
    } else if a.len() == 0 && b.len() == 0 {
        assert(a =~= b);
    }
}

/// Of two byte strings, at most one is below the other.
pub proof fn lemma_bytes_lt_asymmetric(a: Seq<u8>, b: Seq<u8>)
    requires
        bytes_lt(a, b),
    ensures
        !bytes_lt(b, a),
{
    if bytes_lt(b, a) {
        lemma_bytes_lt_transitive(a, b, a);
        lemma_bytes_lt_irreflexive(a);
    }
}

/// UTF-8 encoding is one-to-one.
pub proof fn lemma_encode_injective(a: Seq<char>, b: Seq<char>)
    requires
        encode_utf8(a) == encode_utf8(b),
    ensures
        a == b,
{
    encode_utf8_decode_utf8(a);
    encode_utf8_decode_utf8(b);
}

/// No text is below itself.
pub proof fn lemma_text_lt_irreflexive(a: Seq<char>)
    ensures
        !text_lt(a, a),
{
    lemma_bytes_lt_irreflexive(encode_utf8(a));
}

/// The text order is transitive.
pub proof fn lemma_text_lt_transitive(a: Seq<char>, b: Seq<char>, c: Seq<char>)
    requires
        text_lt(a, b),
        text_lt(b, c),
    ensures
        text_lt(a, c),
{
    lemma_bytes_lt_transitive(encode_utf8(a), encode_utf8(b), encode_utf8(c));
}

/// Of two texts, at most one is below the other, and a text below another
/// differs from it.
pub proof fn lemma_text_lt_asymmetric(a: Seq<char>, b: Seq<char>)
    requires
        text_lt(a, b),
    ensures
        !text_lt(b, a),
        a != b,
{
    lemma_bytes_lt_asymmetric(encode_utf8(a), encode_utf8(b));
    lemma_bytes_lt_irreflexive(encode_utf8(a));
}

/// Of two different texts, one is below the other: the order is total.
pub proof fn lemma_text_lt_total(a: Seq<char>, b: Seq<char>)
    ensures
        a == b || text_lt(a, b) || text_lt(b, a),
{
    lemma_bytes_lt_total(encode_utf8(a), encode_utf8(b));
    if encode_utf8(a) == encode_utf8(b) {
        lemma_encode_injective(a, b);
    }
}

/// The outcome of comparing two texts.
#[derive(Debug, Clone, Copy, PartialEq, Eq, Structural)]
pub enum TextOrder {
    Less,
    Equal,
    Greater,
}

/// Compares two texts in the order of Rust's `str`.
pub fn compare_text(a: &str, b: &str) -> (r: TextOrder)
    ensures
        (r is Less) == text_lt(a@, b@),
        (r is Equal) == (a@ == b@),
        (r is Greater) == text_lt(b@, a@),
{
    let x = a.as_bytes();
    let y = b.as_bytes();
    let ghost ex = encode_utf8(a@);
    let ghost ey = encode_utf8(b@);
    assert(x@ == ex);
    assert(y@ == ey);
    assert(ex.skip(0) =~= ex);
    assert(ey.skip(0) =~= ey);
    let xn = x.len();
    let yn = y.len();
    let mut i: usize = 0;
    while i < xn && i < yn
        invariant
            xn == x@.len(),
            yn == y@.len(),
            x@ == ex,
            y@ == ey,
            ex == encode_utf8(a@),
            ey == encode_utf8(b@),
            i <= xn,
            i <= yn,
            ex.subrange(0, i as int) == ey.subrange(0, i as int),
            bytes_lt(ex, ey) == bytes_lt(ex.skip(i as int), ey.skip(i as int)),
            bytes_lt(ey, ex) == bytes_lt(ey.skip(i as int), ex.skip(i as int)),
        decreases xn - i,
    {
        let p = x[i];
        let q = y[i];
        assert(ex.skip(i as int)[0] == p);
        assert(ey.skip(i as int)[0] == q);
        if p < q {
            assert(bytes_lt(ex.skip(i as int), ey.skip(i as int)));
            assert(bytes_lt(ex, ey));
            proof {
                lemma_bytes_lt_asymmetric(ex, ey);
                lemma_bytes_lt_irreflexive(ex);
            }
            return TextOrder::Less;
        }
        if q < p {
            assert(bytes_lt(ey.skip(i as int), ex.skip(i as int)));
            assert(bytes_lt(ey, ex));
            proof {
                lemma_bytes_lt_asymmetric(ey, ex);
                lemma_bytes_lt_irreflexive(ex);
            }
            return TextOrder::Greater;
        }
        assert(ex.skip(i as int).drop_first() =~= ex.skip(i + 1));
        assert(ey.skip(i as int).drop_first() =~= ey.skip(i + 1));
        assert(ex.subrange(0, i + 1) =~= ex.subrange(0, i as int).push(p));
        assert(ey.subrange(0, i + 1) =~= ey.subrange(0, i as int).push(q));
        i = i + 1;
    }
    proof {
        lemma_bytes_lt_irreflexive(ex);
        if xn == yn {
            assert(ex =~= ex.subrange(0, i as int));
            assert(ey =~= ey.subrange(0, i as int));
            lemma_encode_injective(a@, b@);
        } else {
            if a@ == b@ {
                assert(false);
            }
            if i == xn {
                assert(ex.skip(i as int).len() == 0);
                lemma_bytes_lt_asymmetric(ex, ey);
            } else {
                assert(ey.skip(i as int).len() == 0);
                lemma_bytes_lt_asymmetric(ey, ex);
            }
        }
    }
    if xn < yn {
        TextOrder::Less
    } else if yn < xn {
        TextOrder::Greater
    } else {
        TextOrder::Equal
    }
}

/// Whether two texts are equal.
pub fn text_eq(a: &str, b: &str) -> (r: bool)
    ensures
        r == (a@ == b@),
{
    match compare_text(a, b) {
        TextOrder::Equal => true,
        _ => false,
    }
}


/// Where a text belongs in a strictly sorted list of strings.
pub struct Slot {
    /// Number of listed texts smaller than the sought one.
    pub position: usize,
    /// Whether the text is listed (at `position`).
    pub found: bool,
}

/// Locates `s` in the strictly sorted `list`.
pub fn locate(list: &[String], s: &str) -> (r: Slot)
    requires
        strictly_sorted(texts(list@)),
    ensures
        r.position <= list@.len(),
        forall|k: int| 0 <= k < r.position ==> text_lt(#[trigger] list@[k]@, s@),
        r.found ==> r.position < list@.len() && list@[r.position as int]@ == s@,
        !r.found ==> r.position == list@.len() || text_lt(s@, list@[r.position as int]@),
        r.found == texts(list@).contains(s@),
{
    let n = list.len();
    let mut p: usize = 0;
    while p < n
        invariant
            n == list@.len(),
            strictly_sorted(texts(list@)),
            p <= n,
            forall|k: int| 0 <= k < p ==> text_lt(#[trigger] list@[k]@, s@),
        decreases n - p,
    {
        match compare_text(list[p].as_str(), s) {
            TextOrder::Less => {
                p = p + 1;
            },
            TextOrder::Equal => {
                assert(texts(list@)[p as int] == s@);
                return Slot { position: p, found: true };
            },
            TextOrder::Greater => {
                proof {
                    if texts(list@).contains(s@) {
                        let k = choose|k: int| 0 <= k < list@.len() && texts(list@)[k] == s@;
                        if k < p {
                            lemma_text_lt_irreflexive(s@);
                        } else if k > p {
                            assert(texts(list@)[p as int] == list@[p as int]@);
                            assert(texts(list@)[k] == list@[k]@);
                            lemma_text_lt_transitive(s@, list@[p as int]@, list@[k]@);
                            lemma_text_lt_irreflexive(s@);
                        } else {
                            lemma_text_lt_irreflexive(s@);
                        }
                    }
                }
                return Slot { position: p, found: false };
            },
        }
    }
    proof {
        if texts(list@).contains(s@) {
            let k = choose|k: int| 0 <= k < list@.len() && texts(list@)[k] == s@;
            lemma_text_lt_irreflexive(s@);
        }
    }
    Slot { position: p, found: false }
}

proof fn lemma_insert_keeps_sorted(v: Seq<Seq<char>>, p: int, x: Seq<char>)
    requires
        strictly_sorted(v),
        0 <= p <= v.len(),
        forall|k: int| 0 <= k < p ==> text_lt(#[trigger] v[k], x),
        p < v.len() ==> text_lt(x, v[p]),
    ensures
        strictly_sorted(v.insert(p, x)),
{
    let w = v.insert(p, x);
    assert forall|i: int, j: int| 0 <= i < j < w.len() implies text_lt(#[trigger] w[i], #[trigger] w[j]) by {
        if j == p {
            assert(w[i] == v[i]);
        } else if i == p {
            assert(w[j] == v[j - 1]);
            if j - 1 > p {
                lemma_text_lt_transitive(x, v[p], v[j - 1]);
            }
        } else if i < p && j > p {
            assert(w[i] == v[i]);
            assert(w[j] == v[j - 1]);
        } else if i > p {
            assert(w[i] == v[i - 1]);
            assert(w[j] == v[j - 1]);
        } else {
            assert(w[i] == v[i]);
            assert(w[j] == v[j]);
        }
    }
}

/// A strictly sorted list holds no text twice.
pub proof fn lemma_sorted_no_duplicates(v: Seq<Seq<char>>)
    requires
        strictly_sorted(v),
    ensures
        no_duplicates(v),
{
    assert forall|i: int, j: int| 0 <= i < j < v.len() implies #[trigger] v[i] != #[trigger] v[j] by {
        lemma_text_lt_asymmetric(v[i], v[j]);
    }
}

/// The distinct texts of `items`, in ascending order.
pub fn sorted_unique(items: &[String]) -> (r: Vec<String>)
    ensures
        strictly_sorted(texts(r@)),
        forall|x: Seq<char>| texts(r@).contains(x) <==> texts(items@).contains(x),
        r@.len() <= items@.len(),
{
    let n = items.len();
    let mut out: Vec<String> = Vec::new();
    for t in 0..n
        invariant
            n == items@.len(),
            strictly_sorted(texts(out@)),
            out@.len() <= t,
            forall|x: Seq<char>| texts(out@).contains(x) <==> texts(items@.take(t as int)).contains(x),
    {
        let s = &items[t];
        let slot = locate(out.as_slice(), s.as_str());
        let ghost before = out@;
        let ghost pre = texts(items@.take(t as int));
        let ghost post = texts(items@.take(t + 1));
        assert(post =~= pre.push(s@));
        if !slot.found {
            let p = slot.position;
            out.insert(p, s.clone());
            proof {
                assert(texts(out@) =~= texts(before).insert(p as int, s@));
                lemma_insert_keeps_sorted(texts(before), p as int, s@);
                assert forall|x: Seq<char>| texts(out@).contains(x) <==> post.contains(x) by {
                    if texts(out@).contains(x) {
                        let k = choose|k: int| 0 <= k < texts(out@).len() && texts(out@)[k] == x;
                        if k < p {
                            assert(texts(before)[k] == x);
                        } else if k > p {
                            assert(texts(before)[k - 1] == x);
                        }
                    }
                    if texts(before).contains(x) {
                        let k = choose|k: int| 0 <= k < texts(before).len() && texts(before)[k] == x;
                        if k < p {
                            assert(texts(out@)[k] == x);
                        } else {
                            assert(texts(out@)[k + 1] == x);
                        }
                    }
                    if x == s@ {
                        assert(texts(out@)[p as int] == x);
                        assert(post[t as int] == x);
                    }
                    if post.contains(x) {
                        let k = choose|k: int| 0 <= k < post.len() && post[k] == x;
                        if k < t {
                            assert(pre[k] == x);
                        }
                    }
                    if pre.contains(x) {
                        let k = choose|k: int| 0 <= k < pre.len() && pre[k] == x;
                        assert(post[k] == x);
                    }
                }
            }
        } else {
            proof {
                assert forall|x: Seq<char>| texts(out@).contains(x) <==> post.contains(x) by {
                    if x == s@ {
                        assert(texts(out@)[slot.position as int] == x);
                        assert(post[t as int] == x);
                    }
                    if post.contains(x) {
                        let k = choose|k: int| 0 <= k < post.len() && post[k] == x;
                        if k < t {
                            assert(pre[k] == x);
                        }
                    }
                    if pre.contains(x) {
                        let k = choose|k: int| 0 <= k < pre.len() && pre[k] == x;
                        assert(post[k] == x);
                    }
                }
            }
        }
    }
    assert(items@.take(n as int) =~= items@);
    out
}


/// Whether every text of `list` is smaller than every later one.
pub fn is_strictly_sorted(list: &[String]) -> (r: bool)
    ensures
        r == strictly_sorted(texts(list@)),
{
    let n = list.len();
    let ghost t = texts(list@);
    if n == 0 {
        return true;
    }
    let mut i: usize = 1;
    while i < n
        invariant
            n == list@.len(),
            t == texts(list@),
            1 <= i <= n,
            forall|a: int, b: int| 0 <= a < b < i ==> text_lt(#[trigger] t[a], #[trigger] t[b]),
        decreases n - i,
    {
        match compare_text(list[i - 1].as_str(), list[i].as_str()) {
            TextOrder::Less => {},
            _ => {
                assert(!text_lt(t[i - 1], t[i as int]));
                return false;
            },
        }
        assert forall|a: int, b: int| 0 <= a < b < i + 1 implies text_lt(#[trigger] t[a], #[trigger] t[b]) by {
            if b == i && a < i - 1 {
                lemma_text_lt_transitive(t[a], t[i - 1], t[b]);
            }
        }
        i = i + 1;
    }
    true
}

/// Index of the first occurrence of `s` in `list`, if any.
pub fn position_of(list: &[String], s: &str) -> (r: Option<usize>)
    ensures
        match r {
            Some(k) => k < list@.len() && list@[k as int]@ == s@ && forall|j: int|
                0 <= j < k ==> (#[trigger] list@[j])@ != s@,
            None => !texts(list@).contains(s@),
        },
{
    let n = list.len();
    let mut k: usize = 0;
    while k < n
        invariant
            n == list@.len(),
            k <= n,
            forall|j: int| 0 <= j < k ==> (#[trigger] list@[j])@ != s@,
        decreases n - k,
    {
        if text_eq(list[k].as_str(), s) {
            return Some(k);
        }
        k = k + 1;
    }
    proof {
        if texts(list@).contains(s@) {
            let j = choose|j: int| 0 <= j < list@.len() && texts(list@)[j] == s@;
            assert(list@[j]@ == s@);
        }
    }
    None
}

/// The character of a decimal digit.
pub open spec fn digit_char(d: int) -> char {
    if d == 0 {
        '0'
    } else if d == 1 {
        '1'
    } else if d == 2 {
        '2'
    } else if d == 3 {
        '3'
    } else if d == 4 {
        '4'
    } else if d == 5 {
        '5'
    } else if d == 6 {
        '6'
    } else if d == 7 {
        '7'
    } else if d == 8 {
        '8'
    } else {
        '9'
    }
}

/// The decimal numeral of `n`, without leading zeros.
pub open spec fn decimal(n: nat) -> Seq<char>
    decreases n,
{
    if n < 10 {
        seq![digit_char(n as int)]
    } else {
        decimal(n / 10).push(digit_char((n % 10) as int))
    }
}

/// The decimal numeral of `v`, with a leading `-` when negative.
pub open spec fn signed_decimal(v: int) -> Seq<char> {
    if v < 0 {
        seq!['-'] + decimal((-v) as nat)
    } else {
        decimal(v as nat)
    }
}

fn digit_text(d: u128) -> (r: &'static str)
    requires
        d < 10,
    ensures
        r@ == seq![digit_char(d as int)],
{
    if d == 0 {
        proof {
            reveal_strlit("0");
        }
        "0"
    } else if d == 1 {
        proof {
            reveal_strlit("1");
        }
        "1"
    } else if d == 2 {
        proof {
            reveal_strlit("2");
        }
        "2"
    } else if d == 3 {
        proof {
            reveal_strlit("3");
        }
        "3"
    } else if d == 4 {
        proof {
            reveal_strlit("4");
        }
        "4"
    } else if d == 5 {
        proof {
            reveal_strlit("5");
        }
        "5"
    } else if d == 6 {
        proof {
            reveal_strlit("6");
        }
        "6"
    } else if d == 7 {
        proof {
            reveal_strlit("7");
        }
        "7"
    } else if d == 8 {
        proof {
            reveal_strlit("8");
        }
        "8"
    } else {
        proof {
            reveal_strlit("9");
        }
        "9"
    }
}

/// Renders `n` in decimal.
pub fn decimal_text(n: u128) -> (r: String)
    ensures
        r@ == decimal(n as nat),
    decreases n,
{
    if n < 10 {
        digit_text(n).to_owned()
    } else {
        let mut s = decimal_text(n / 10);
        s.append(digit_text(n % 10));
        s
    }
}

/// Renders `n` in decimal.
pub fn usize_text(n: usize) -> (r: String)
    ensures
        r@ == decimal(n as nat),
{
    decimal_text(n as u128)
}

/// Renders `v` in decimal, with a leading `-` when negative.
pub fn signed_text(v: i128) -> (r: String)
    ensures
        r@ == signed_decimal(v as int),
{
    if v < 0 {
        let m: u128 = if v == i128::MIN {
            170141183460469231731687303715884105728u128
        } else {
            (-v) as u128
        };
        let mut s = "-".to_owned();
        proof {
            reveal_strlit("-");
        }
        let d = decimal_text(m);
        s.append(d.as_str());
        s
    } else {
        decimal_text(v as u128)
    }
}

} // verus!
