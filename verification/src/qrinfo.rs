//! The page number and page count carried by the QR code of a template page.
//!
//! Current pages carry a JSON object `{"p":"mfc","pg":N,"t":M,...}`; older
//! pages carry the plain text `mfc:N/M`.
use vstd::prelude::*;

verus! {

/// Unicode White_Space, the characters that `char::is_whitespace` accepts.
pub open spec fn is_white_space(c: char) -> bool {
    let v = c as u32;
    (0x9 <= v <= 0xd) || v == 0x20 || v == 0x85 || v == 0xa0 || v == 0x1680 || (0x2000 <= v <= 0x200a)
        || v == 0x2028 || v == 0x2029 || v == 0x202f || v == 0x205f || v == 0x3000
}

/// `s` without its leading White_Space.
pub open spec fn trim_start_spec(s: Seq<char>) -> Seq<char>
    decreases s.len(),
{
    if s.len() > 0 && is_white_space(s[0]) {
        trim_start_spec(s.drop_first())
    } else {
        s
    }
}

/// `s` without its trailing White_Space.
pub open spec fn trim_end_spec(s: Seq<char>) -> Seq<char>
    decreases s.len(),
{
    if s.len() > 0 && is_white_space(s.last()) {
        trim_end_spec(s.drop_last())
    } else {
        s
    }
}

/// `s` without leading and trailing White_Space.
pub open spec fn trimmed(s: Seq<char>) -> Seq<char> {
    trim_end_spec(trim_start_spec(s))
}

/// std's `str::trim`, which removes leading and trailing characters of the
/// Unicode White_Space property. Claimed: the result is `trimmed` of `s`.
#[verifier::external_body]
fn trim_str(s: &str) -> (r: &str)
    ensures
        r@ == trimmed(s@),
{
    s.trim()
}

/// The characters of `s`.
pub fn chars_of(s: &str) -> (v: Vec<char>)
    ensures
        v@ == s@,
{
    broadcast use vstd::string::group_string_axioms;

    let mut v: Vec<char> = Vec::new();
    for c in it: s.chars()
        invariant
            v@.len() == it.index(),
            forall|i: int| 0 <= i < v@.len() ==> #[trigger] v@[i] == it.seq()[i],
            it.seq() == s@,
    {
        v.push(c);
    }
    proof {
        assert(v@ =~= s@);
    }
    v
}

/// `d` is a non-empty run of ASCII digits.
pub open spec fn all_digits(d: Seq<char>) -> bool {
    d.len() > 0 && forall|i: int| 0 <= i < d.len() ==> '0' <= #[trigger] d[i] <= '9'
}

/// The number that the ASCII digits `d` write in base ten.
pub open spec fn digits_value(d: Seq<char>) -> int
    decreases d.len(),
{
    if d.len() == 0 {
        0
    } else {
        digits_value(d.drop_last()) * 10 + (d.last() as int - '0' as int)
    }
}

/// What std's `u32::from_str` gives: an optional `+`, then ASCII digits whose
/// value fits in a `u32`; anything else is refused.
pub open spec fn parse_u32_spec(s: Seq<char>) -> Option<u32> {
    let d = if s.len() > 0 && s[0] == '+' {
        s.drop_first()
    } else {
        s
    };
    if all_digits(d) && digits_value(d) <= u32::MAX {
        Some(digits_value(d) as u32)
    } else {
        None
    }
}

proof fn lemma_digits_nonneg(d: Seq<char>)
    requires
        forall|i: int| 0 <= i < d.len() ==> '0' <= #[trigger] d[i] <= '9',
    ensures
        digits_value(d) >= 0,
    decreases d.len(),
{
    if d.len() > 0 {
        lemma_digits_nonneg(d.drop_last());
    }
}

/// Parses the characters `s[lo..hi)` as std's `u32::from_str` would.
pub fn parse_u32_chars(s: &Vec<char>, lo: usize, hi: usize) -> (r: Option<u32>)
    requires
        lo <= hi <= s@.len(),
    ensures
        r == parse_u32_spec(s@.subrange(lo as int, hi as int)),
{
    let ghost t = s@.subrange(lo as int, hi as int);
    let mut start = lo;
    if start < hi && s[start] == '+' {
        start += 1;
    }
    let ghost d = s@.subrange(start as int, hi as int);
    proof {
        if lo < hi && s@[lo as int] == '+' {
            assert(d =~= t.drop_first());
        } else {
            assert(d =~= t);
        }
    }
    let ghost expect = if all_digits(d) && digits_value(d) <= u32::MAX {
        Some(digits_value(d) as u32)
    } else {
        None
    };
    assert(parse_u32_spec(t) == expect);
    if start == hi {
        return None;
    }
    let mut acc: u64 = 0;
    let mut k = start;
    while k < hi
        invariant
            lo <= start < hi <= s@.len(),
            start <= k <= hi,
            d == s@.subrange(start as int, hi as int),
            t == s@.subrange(lo as int, hi as int),
            parse_u32_spec(t) == expect,
            expect == if all_digits(d) && digits_value(d) <= u32::MAX {
                Some(digits_value(d) as u32)
            } else {
                None
            },
            forall|i: int| 0 <= i < k - start ==> '0' <= #[trigger] d[i] <= '9',
            acc == digits_value(d.subrange(0, k - start)),
            acc <= u32::MAX,
        decreases hi - k,
    {
        let c = s[k];
        let ghost j = k - start;
        proof {
            assert(d[j] == c);
        }
        if !('0' <= c && c <= '9') {
            proof {
                assert(!all_digits(d));
                assert(expect is None);
            }
            return None;
        }
        let digit = (c as u32 - '0' as u32) as u64;
        proof {
            lemma_digit_step(d, j);
            assert(acc * 10 + digit <= 0xffff_ffff * 10 + 9) by (nonlinear_arith)
                requires
                    acc <= 0xffff_ffff,
                    digit <= 9,
            ;
        }
        let next = acc * 10 + digit;
        if next > 0xffff_ffff {
            proof {
                lemma_digits_prefix_grows(d, j + 1);
                assert(all_digits(d) ==> digits_value(d) > u32::MAX);
                assert(expect is None);
            }
            return None;
        }
        acc = next;
        k += 1;
    }
    proof {
        assert(d.subrange(0, d.len() as int) =~= d);
    }
    Some(acc as u32)
}

/// One more digit: the prefix's value times ten plus the digit.
proof fn lemma_digit_step(d: Seq<char>, j: int)
    requires
        0 <= j < d.len(),
    ensures
        digits_value(d.subrange(0, j + 1)) == digits_value(d.subrange(0, j)) * 10 + (d[j] as int - '0' as int),
{
    let p = d.subrange(0, j + 1);
    assert(p.drop_last() =~= d.subrange(0, j));
}

/// A longer run of digits is worth no less than its prefix.
proof fn lemma_digits_prefix_grows(d: Seq<char>, j: int)
    requires
        0 <= j <= d.len(),
        forall|i: int| 0 <= i < j ==> '0' <= #[trigger] d[i] <= '9',
    ensures
        all_digits(d) ==> digits_value(d.subrange(0, j)) <= digits_value(d),
    decreases d.len() - j,
{
    if all_digits(d) && j < d.len() {
        let e = d.subrange(0, j + 1);
        assert(e.drop_last() =~= d.subrange(0, j));
        lemma_digits_nonneg(d.subrange(0, j));
        lemma_digits_prefix_grows(d, j + 1);
    }
    if j == d.len() {
        assert(d.subrange(0, j) =~= d);
    }
}

/// The string member `key` of the JSON object that `text` holds: none when
/// `text` is not JSON, is not an object, lacks the member or holds another
/// kind of value there.
pub uninterp spec fn json_str_member_of(text: Seq<char>, key: Seq<char>) -> Option<Seq<char>>;

/// The member `key` of the JSON object that `text` holds, when it is a
/// non-negative integer that fits in a `u64`.
pub uninterp spec fn json_u64_member_of(text: Seq<char>, key: Seq<char>) -> Option<u64>;

/// An optional string as characters.
pub open spec fn opt_chars(o: Option<String>) -> Option<Seq<char>> {
    match o {
        Some(s) => Some(s@),
        None => None,
    }
}

/// serde_json's `from_str::<Value>` on `text`, then `Value::get(key)` and
/// `Value::as_str`, the string copied out. Claimed: the result is
/// `json_str_member_of(text, key)`, a function of the two strings alone.
#[verifier::external_body]
fn json_str_member(text: &str, key: &str) -> (r: Option<String>)
    ensures
        opt_chars(r) == json_str_member_of(text@, key@),
{
    let v: serde_json::Value = serde_json::from_str(text).ok()?;
    v.get(key).and_then(|x| x.as_str()).map(|s| s.to_string())
}

/// serde_json's `from_str::<Value>` on `text`, then `Value::get(key)` and
/// `Value::as_u64`. Claimed: the result is `json_u64_member_of(text, key)`,
/// a function of the two strings alone.
#[verifier::external_body]
fn json_u64_member(text: &str, key: &str) -> (r: Option<u64>)
    ensures
        r == json_u64_member_of(text@, key@),
{
    let v: serde_json::Value = serde_json::from_str(text).ok()?;
    v.get(key).and_then(|x| x.as_u64())
}

/// The product tag of current pages.
pub open spec fn product_tag() -> Seq<char> {
    seq!['m', 'f', 'c']
}

/// The prefix of the plain-text form.
pub open spec fn plain_prefix() -> Seq<char> {
    seq!['m', 'f', 'c', ':']
}

/// A `u64` that fits in a `u32`, as one.
pub open spec fn u32_of(v: Option<u64>) -> Option<u32> {
    match v {
        Some(n) => if n <= u32::MAX {
            Some(n as u32)
        } else {
            None
        },
        None => None,
    }
}

/// Number of `/` in `s`.
pub open spec fn slash_count(s: Seq<char>) -> nat
    decreases s.len(),
{
    if s.len() == 0 {
        0
    } else {
        slash_count(s.drop_last()) + if s.last() == '/' {
            1nat
        } else {
            0nat
        }
    }
}

/// `i` is the position of the first `/` of `s`.
pub open spec fn first_slash_at(s: Seq<char>, i: int) -> bool {
    &&& 0 <= i < s.len()
    &&& s[i] == '/'
    &&& forall|j: int| 0 <= j < i ==> s[j] != '/'
}

/// The plain-text form `mfc:N/M`: after the prefix, exactly two fields
/// separated by `/`, each parsed as a `u32`.
pub open spec fn plain_page_info(t: Seq<char>) -> (Option<u32>, Option<u32>) {
    if t.len() >= 4 && t.subrange(0, 4) == plain_prefix() {
        let rest = t.subrange(4, t.len() as int);
        if slash_count(rest) == 1 {
            let i = choose|i: int| first_slash_at(rest, i);
            (parse_u32_spec(rest.subrange(0, i)), parse_u32_spec(rest.subrange(i + 1, rest.len() as int)))
        } else {
            (None, None)
        }
    } else {
        (None, None)
    }
}

/// Page number and page count from the trimmed QR text `t` and the JSON
/// members read from it: the JSON form when its `p` member is `mfc`,
/// otherwise the plain-text form, otherwise nothing.
pub open spec fn page_info_spec(
    t: Seq<char>,
    product: Option<Seq<char>>,
    page: Option<u64>,
    total: Option<u64>,
) -> (Option<u32>, Option<u32>) {
    if product == Some(product_tag()) {
        (u32_of(page), u32_of(total))
    } else {
        plain_page_info(t)
    }
}

fn to_u32(v: Option<u64>) -> (r: Option<u32>)
    ensures
        r == u32_of(v),
{
    match v {
        Some(n) => if n <= 0xffff_ffff {
            Some(n as u32)
        } else {
            None
        },
        None => None,
    }
}

/// Whether the characters are exactly `m`, `f`, `c`.
fn is_product_tag(c: &Vec<char>) -> (r: bool)
    ensures
        r == (c@ == product_tag()),
{
    if c.len() == 3 && c[0] == 'm' && c[1] == 'f' && c[2] == 'c' {
        assert(c@ =~= product_tag());
        true
    } else {
        false
    }
}

/// The plain-text form `mfc:N/M` of the characters `t`.
pub fn plain_page_info_of(t: &Vec<char>) -> (r: (Option<u32>, Option<u32>))
    ensures
        r == plain_page_info(t@),
{
    if !(t.len() >= 4 && t[0] == 'm' && t[1] == 'f' && t[2] == 'c' && t[3] == ':') {
        proof {
            if t@.len() >= 4 {
                if t@.subrange(0, 4) == plain_prefix() {
                    assert(t@.subrange(0, 4)[3] == t@[3]);
                    assert(t@.subrange(0, 4)[0] == t@[0]);
                    assert(t@.subrange(0, 4)[1] == t@[1]);
                    assert(t@.subrange(0, 4)[2] == t@[2]);
                }
            }
        }
        return (None, None);
    }
    assert(t@.subrange(0, 4) =~= plain_prefix());
    let ghost rest = t@.subrange(4, t@.len() as int);
    let n = t.len();
    let mut count: usize = 0;
    let mut first: usize = n;
    let mut k: usize = 4;
    while k < n
        invariant
            4 <= k <= n,
            n == t@.len(),
            rest == t@.subrange(4, n as int),
            count == slash_count(rest.subrange(0, k - 4)),
            count <= k - 4,
            count == 0 ==> first == n,
            count == 0 ==> forall|j: int| 0 <= j < k - 4 ==> rest[j] != '/',
            count > 0 ==> 4 <= first < k && first_slash_at(rest, first - 4),
        decreases n - k,
    {
        proof {
            let p = rest.subrange(0, k - 4 + 1);
            assert(p.drop_last() =~= rest.subrange(0, k - 4));
            assert(p.last() == t@[k as int]);
        }
        if t[k] == '/' {
            if count == 0 {
                first = k;
            }
            count += 1;
        }
        k += 1;
    }
    proof {
        assert(rest.subrange(0, rest.len() as int) =~= rest);
    }
    if count != 1 {
        return (None, None);
    }
    proof {
        assert(first_slash_at(rest, first - 4));
        assert forall|i: int| first_slash_at(rest, i) implies i == first - 4 by {
        }
    }
    let page = parse_u32_chars(t, 4, first);
    let total = parse_u32_chars(t, first + 1, n);
    proof {
        let i = choose|i: int| first_slash_at(rest, i);
        assert(i == first - 4);
        assert(rest.subrange(0, i) =~= t@.subrange(4, first as int));
        assert(rest.subrange(i + 1, rest.len() as int) =~= t@.subrange(first + 1, n as int));
    }
    (page, total)
}

/// Page number and page count from the trimmed QR text and the JSON members
/// `p`, `pg` and `t` read from it.
pub fn page_info_from(
    trimmed_text: &str,
    product: Option<String>,
    page: Option<u64>,
    total: Option<u64>,
) -> (r: (Option<u32>, Option<u32>))
    ensures
        r == page_info_spec(trimmed_text@, opt_chars(product), page, total),
{
    let is_tag = match &product {
        Some(p) => {
            let c = chars_of(p.as_str());
            is_product_tag(&c)
        },
        None => false,
    };
    if is_tag {
        return (to_u32(page), to_u32(total));
    }
    let t = chars_of(trimmed_text);
    plain_page_info_of(&t)
}

/// Page number and page count carried by a page's QR text: the JSON form
/// `{"p":"mfc","pg":N,"t":M}` (members that are not `u32` give none), else
/// the plain-text form `mfc:N/M`, else nothing. Surrounding White_Space is
/// ignored.
pub fn parse_qr_page_info(data: &str) -> (r: (Option<u32>, Option<u32>))
    ensures
        ({
            let t = trimmed(data@);
            r == page_info_spec(
                t,
                json_str_member_of(t, seq!['p']),
                json_u64_member_of(t, seq!['p', 'g']),
                json_u64_member_of(t, seq!['t']),
            )
        }),
{
    let t = trim_str(data);
    let product = json_str_member(t, "p");
    let page = json_u64_member(t, "pg");
    let total = json_u64_member(t, "t");
    proof {
        reveal_strlit("p");
        reveal_strlit("pg");
        reveal_strlit("t");
        assert("p"@ =~= seq!['p']);
        assert("pg"@ =~= seq!['p', 'g']);
        assert("t"@ =~= seq!['t']);
    }
    page_info_from(t, product, page, total)
}

/// The digit character of `d` (0 to 9).
pub open spec fn digit_char(d: int) -> char {
    (48 + d) as char
}

/// The decimal digits of `n`, most significant first, without leading zeros.
pub open spec fn decimal(n: nat) -> Seq<char>
    decreases n,
{
    if n < 10 {
        seq![digit_char(n as int)]
    } else {
        decimal(n / 10).push(digit_char((n % 10) as int))
    }
}

proof fn lemma_decimal(n: nat)
    ensures
        all_digits(decimal(n)),
        digits_value(decimal(n)) == n,
        slash_count(decimal(n)) == 0,
        decimal(n)[0] != '+',
    decreases n,
{
    let c = digit_char((n % 10) as int);
    assert(c as int == 48 + n % 10);
    assert('0' as int == 48 && '9' as int == 57 && '/' as int == 47 && '+' as int == 43);
    assert(c != '/' && c != '+');
    assert(slash_count(Seq::<char>::empty()) == 0);
    if n >= 10 {
        lemma_decimal(n / 10);
        let d = decimal(n / 10);
        let e = d.push(c);
        assert(e.drop_last() =~= d);
        assert(e.last() == c);
        assert(digits_value(e) == digits_value(d) * 10 + (c as int - '0' as int));
        assert((n / 10) * 10 + n % 10 == n);
        assert(e[0] == d[0]);
        assert forall|i: int| 0 <= i < e.len() implies '0' <= #[trigger] e[i] <= '9' by {
            if i < d.len() {
                assert(e[i] == d[i]);
            }
        }
    } else {
        assert(decimal(n).drop_last() =~= Seq::<char>::empty());
        assert(digits_value(Seq::<char>::empty()) == 0);
        assert(decimal(n).last() == c);
        assert(n % 10 == n);
    }
}

proof fn lemma_slash_count_concat(s: Seq<char>, t: Seq<char>)
    ensures
        slash_count(s + t) == slash_count(s) + slash_count(t),
    decreases t.len(),
{
    if t.len() > 0 {
        lemma_slash_count_concat(s, t.drop_last());
        assert((s + t).drop_last() =~= s + t.drop_last());
    } else {
        assert(s + t =~= s);
    }
}

/// The plain-text page label `mfc:N/M` written with the decimal digits of
/// two `u32`s reads back as those two numbers.
pub proof fn lemma_plain_round_trip(page: u32, total: u32)
    ensures
        plain_page_info(plain_prefix() + decimal(page as nat) + seq!['/'] + decimal(total as nat)) == (
            Some(page),
            Some(total),
        ),
{
    let a = decimal(page as nat);
    let b = decimal(total as nat);
    let t = plain_prefix() + a + seq!['/'] + b;
    lemma_decimal(page as nat);
    lemma_decimal(total as nat);
    assert(t.subrange(0, 4) =~= plain_prefix());
    let rest = t.subrange(4, t.len() as int);
    assert(rest =~= a + seq!['/'] + b);
    lemma_slash_count_concat(a, seq!['/']);
    lemma_slash_count_concat(a + seq!['/'], b);
    assert(seq!['/'].drop_last() =~= Seq::<char>::empty());
    assert(slash_count(Seq::<char>::empty()) == 0);
    assert(slash_count(seq!['/']) == 1);
    let i = a.len() as int;
    assert forall|j: int| 0 <= j < i implies rest[j] != '/' by {
        assert(rest[j] == a[j]);
        assert('0' <= a[j] <= '9');
    }
    assert(first_slash_at(rest, i));
    let c = choose|c: int| first_slash_at(rest, c);
    assert(c == i) by {
        if c < i {
            assert(rest[c] == a[c]);
            assert('0' <= a[c] <= '9');
        }
    }
    assert(rest.subrange(0, i) =~= a);
    assert(rest.subrange(i + 1, rest.len() as int) =~= b);
    assert(parse_u32_spec(a) == Some(page));
    assert(parse_u32_spec(b) == Some(total));
}

} // verus!
