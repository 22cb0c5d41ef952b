//! Character-level string helpers: equality, prefix tests, trimming,
//! splitting, and decimal number parsing and printing.

use vstd::prelude::*;

verus! {

/// `p` is a prefix of `s`.
pub open spec fn spec_starts_with(s: Seq<char>, p: Seq<char>) -> bool {
    s.len() >= p.len() && s.subrange(0, p.len() as int) == p
}

/// The Unicode white-space characters, as `str::trim` understands them.
pub open spec fn is_space_char(c: char) -> bool {
    let u = c as u32;
    u == 0x20 || (0x09 <= u && u <= 0x0D) || u == 0x85 || u == 0xA0 || u == 0x1680 || (0x2000
        <= u && u <= 0x200A) || u == 0x2028 || u == 0x2029 || u == 0x202F || u == 0x205F || u
        == 0x3000
}

/// Index of the first character that is not white space (`s.len()` if all are).
pub open spec fn first_nonspace(s: Seq<char>) -> int
    decreases s.len(),
{
    if s.len() == 0 {
        0
    } else if !is_space_char(s[0]) {
        0
    } else {
        1 + first_nonspace(s.drop_first())
    }
}

/// End of the last run of white space: the length of `s` with trailing
/// white space removed.
pub open spec fn last_nonspace_end(s: Seq<char>) -> int
    decreases s.len(),
{
    if s.len() == 0 {
        0
    } else if !is_space_char(s.last()) {
        s.len() as int
    } else {
        last_nonspace_end(s.drop_last())
    }
}

/// `s` with leading and trailing white space removed.
pub open spec fn trim_spec(s: Seq<char>) -> Seq<char> {
    let i = first_nonspace(s);
    let j = last_nonspace_end(s);
    if 0 <= i <= j <= s.len() {
        s.subrange(i, j)
    } else {
        Seq::empty()
    }
}

/// Index of the first occurrence of `c` (`s.len()` if there is none).
pub open spec fn first_index_of(s: Seq<char>, c: char) -> int
    decreases s.len(),
{
    if s.len() == 0 {
        0
    } else if s[0] == c {
        0
    } else {
        1 + first_index_of(s.drop_first(), c)
    }
}

/// Index of the first character that is not `c` (`s.len()` if all are).
pub open spec fn first_not_of(s: Seq<char>, c: char) -> int
    decreases s.len(),
{
    if s.len() == 0 {
        0
    } else if s[0] != c {
        0
    } else {
        1 + first_not_of(s.drop_first(), c)
    }
}

/// `s` with every leading occurrence of `c` removed.
pub open spec fn drop_leading(s: Seq<char>, c: char) -> Seq<char> {
    let i = first_not_of(s, c);
    if 0 <= i <= s.len() {
        s.subrange(i, s.len() as int)
    } else {
        s
    }
}

/// The fields of `s` separated by `sep`, as `str::split` produces them:
/// the empty string has one empty field, and separators at the ends
/// produce empty fields.
pub open spec fn spec_split(s: Seq<char>, sep: char) -> Seq<Seq<char>>
    decreases s.len(),
{
    let i = first_index_of(s, sep);
    if 0 <= i < s.len() {
        seq![s.subrange(0, i)] + spec_split(s.subrange(i + 1, s.len() as int), sep)
    } else {
        seq![s]
    }
}

pub open spec fn is_digit_char(c: char) -> bool {
    48 <= c as u32 <= 57
}

pub open spec fn all_digits(s: Seq<char>) -> bool {
    forall|i: int| 0 <= i < s.len() ==> is_digit_char(#[trigger] s[i])
}

/// The value of a sequence of decimal digits.
pub open spec fn dec_val(s: Seq<char>) -> int
    decreases s.len(),
{
    if s.len() == 0 {
        0
    } else {
        dec_val(s.drop_last()) * 10 + (s.last() as u32 - 48)
    }
}

/// What `str::parse::<u32>` accepts: an optional `+`, then at least one
/// digit, with the value in range.
pub open spec fn parse_u32_spec(s: Seq<char>) -> Option<u32> {
    let body = if s.len() >= 1 && s[0] == '+' {
        s.drop_first()
    } else {
        s
    };
    if body.len() > 0 && all_digits(body) && dec_val(body) <= u32::MAX {
        Some(dec_val(body) as u32)
    } else {
        None
    }
}

/// What `str::parse::<u64>` accepts.
pub open spec fn parse_u64_spec(s: Seq<char>) -> Option<u64> {
    let body = if s.len() >= 1 && s[0] == '+' {
        s.drop_first()
    } else {
        s
    };
    if body.len() > 0 && all_digits(body) && dec_val(body) <= u64::MAX {
        Some(dec_val(body) as u64)
    } else {
        None
    }
}

/// What `str::parse::<i64>` accepts: an optional sign, then at least one
/// digit, with the value in range.
pub open spec fn parse_i64_spec(s: Seq<char>) -> Option<i64> {
    let negative = s.len() >= 1 && s[0] == '-';
    let body = if s.len() >= 1 && (s[0] == '-' || s[0] == '+') {
        s.drop_first()
    } else {
        s
    };
    let value = if negative {
        -dec_val(body)
    } else {
        dec_val(body)
    };
    if body.len() > 0 && all_digits(body) && i64::MIN <= value <= i64::MAX {
        Some(value as i64)
    } else {
        None
    }
}

/// The digit character for a value below ten.
pub open spec fn digit_char(d: int) -> char {
    if d == 0 {
        '0'
    } else if d == 1 {
        '1'
    } else if d == 2 {
        '2'
    } else if d == 3 {
        '3'
    } else if d == 4 {
        '4'
    } else if d == 5 {
        '5'
    } else if d == 6 {
        '6'
    } else if d == 7 {
        '7'
    } else if d == 8 {
        '8'
    } else {
        '9'
    }
}

/// The canonical decimal text of a non-negative value.
pub open spec fn u64_dec_str(v: int) -> Seq<char>
    decreases v,
{
    if v < 10 {
        seq![digit_char(v)]
    } else {
        u64_dec_str(v / 10) + seq![digit_char(v % 10)]
    }
}

/// The canonical decimal text of a signed value.
pub open spec fn i64_dec_str(v: int) -> Seq<char> {
    if v >= 0 {
        u64_dec_str(v)
    } else {
        seq!['-'] + u64_dec_str(-v)
    }
}

/// Character-by-character equality of two string slices.
pub fn str_eq(a: &str, b: &str) -> (r: bool)
    ensures
        r == (a@ == b@),
{
    let alen = a.unicode_len();
    let blen = b.unicode_len();
    if alen != blen {
        return false;
    }
    let mut i: usize = 0;
    while i < alen
        invariant
            alen == a@.len(),
            blen == b@.len(),
            alen == blen,
            i <= alen,
            forall|j: int| 0 <= j < i ==> a@[j] == b@[j],
        decreases alen - i,
    {
        if a.get_char(i) != b.get_char(i) {
            return false;
        }
        i += 1;
    }
    proof {
        assert(a@ =~= b@);
    }
    true
}

/// Does `s` start with `p`, character by character?
pub fn str_starts_with(s: &str, p: &str) -> (r: bool)
    ensures
        r == spec_starts_with(s@, p@),
{
    let slen = s.unicode_len();
    let plen = p.unicode_len();
    if slen < plen {
        return false;
    }
    let mut i: usize = 0;
    while i < plen
        invariant
            slen == s@.len(),
            plen == p@.len(),
            plen <= slen,
            i <= plen,
            forall|j: int| 0 <= j < i ==> s@[j] == p@[j],
        decreases plen - i,
    {
        if s.get_char(i) != p.get_char(i) {
            return false;
        }
        i += 1;
    }
    proof {
        assert(s@.subrange(0, p@.len() as int) =~= p@);
    }
    true
}

/// Is `c` one of the white-space characters?
pub fn is_space(c: char) -> (r: bool)
    ensures
        r == is_space_char(c),
{
    let u = c as u32;
    u == 0x20 || (0x09 <= u && u <= 0x0D) || u == 0x85 || u == 0xA0 || u == 0x1680 || (0x2000
        <= u && u <= 0x200A) || u == 0x2028 || u == 0x2029 || u == 0x202F || u == 0x205F || u
        == 0x3000
}

proof fn lemma_first_nonspace_at(s: Seq<char>, i: int)
    requires
        0 <= i <= s.len(),
        forall|j: int| 0 <= j < i ==> is_space_char(#[trigger] s[j]),
        i < s.len() ==> !is_space_char(s[i]),
    ensures
        first_nonspace(s) == i,
    decreases i,
{
    if i == 0 {
    } else {
        lemma_first_nonspace_at(s.drop_first(), i - 1);
    }
}

proof fn lemma_last_nonspace_at(s: Seq<char>, j: int)
    requires
        0 <= j <= s.len(),
        forall|k: int| j <= k < s.len() ==> is_space_char(#[trigger] s[k]),
        j > 0 ==> !is_space_char(s[j - 1]),
    ensures
        last_nonspace_end(s) == j,
    decreases s.len() - j,
{
    if j == s.len() {
        if s.len() > 0 {
        }
    } else {
        assert(is_space_char(s.last()));
        assert(s.drop_last() =~= s.subrange(0, s.len() - 1));
        lemma_last_nonspace_at(s.drop_last(), j);
    }
}

/// `s` with leading and trailing white space removed, as `str::trim`
/// removes it.
pub fn trim_str<'a>(s: &'a str) -> (r: &'a str)
    ensures
        r@ == trim_spec(s@),
{
    let n = s.unicode_len();
    let mut i: usize = 0;
    while i < n && is_space(s.get_char(i))
        invariant
            n == s@.len(),
            i <= n,
            forall|j: int| 0 <= j < i ==> is_space_char(#[trigger] s@[j]),
        decreases n - i,
    {
        i += 1;
    }
    proof {
        lemma_first_nonspace_at(s@, i as int);
    }
    if i == n {
        let r = s.substring_char(i, i);
        proof {
            lemma_last_nonspace_at(s@, 0);
            assert(r@ =~= trim_spec(s@));
        }
        return r;
    }
    let mut j: usize = n;
    while j > i && is_space(s.get_char(j - 1))
        invariant
            n == s@.len(),
            i <= j <= n,
            i < n,
            !is_space_char(s@[i as int]),
            forall|k: int| j <= k < n ==> is_space_char(#[trigger] s@[k]),
        decreases j,
    {
        j -= 1;
    }
    proof {
        assert(j > i);
        lemma_last_nonspace_at(s@, j as int);
    }
    s.substring_char(i, j)
}

proof fn lemma_first_not_of_at(s: Seq<char>, c: char, i: int)
    requires
        0 <= i <= s.len(),
        forall|j: int| 0 <= j < i ==> #[trigger] s[j] == c,
        i < s.len() ==> s[i] != c,
    ensures
        first_not_of(s, c) == i,
    decreases i,
{
    if i == 0 {
    } else {
        lemma_first_not_of_at(s.drop_first(), c, i - 1);
    }
}

/// `s` with every leading occurrence of `c` removed.
pub fn strip_leading_char<'a>(s: &'a str, c: char) -> (r: &'a str)
    ensures
        r@ == drop_leading(s@, c),
{
    let n = s.unicode_len();
    let mut i: usize = 0;
    while i < n && s.get_char(i) == c
        invariant
            n == s@.len(),
            i <= n,
            forall|j: int| 0 <= j < i ==> #[trigger] s@[j] == c,
        decreases n - i,
    {
        i += 1;
    }
    proof {
        lemma_first_not_of_at(s@, c, i as int);
    }
    s.substring_char(i, n)
}

proof fn lemma_first_index_of_at(s: Seq<char>, c: char, i: int)
    requires
        0 <= i <= s.len(),
        forall|j: int| 0 <= j < i ==> #[trigger] s[j] != c,
        i < s.len() ==> s[i] == c,
    ensures
        first_index_of(s, c) == i,
    decreases i,
{
    if i == 0 {
    } else {
        lemma_first_index_of_at(s.drop_first(), c, i - 1);
    }
}

/// The fields of `s` separated by `sep`, as `str::split` produces them.
pub fn split_char(s: &str, sep: char) -> (r: Vec<String>)
    ensures
        r@.len() == spec_split(s@, sep).len(),
        forall|i: int| 0 <= i < r@.len() ==> #[trigger] r@[i]@ == spec_split(s@, sep)[i],
    decreases s@.len(),
{
    let n = s.unicode_len();
    let mut i: usize = 0;
    while i < n && s.get_char(i) != sep
        invariant
            n == s@.len(),
            i <= n,
            forall|j: int| 0 <= j < i ==> #[trigger] s@[j] != sep,
        decreases n - i,
    {
        i += 1;
    }
    proof {
        lemma_first_index_of_at(s@, sep, i as int);
    }
    if i == n {
        let mut one: Vec<String> = Vec::new();
        one.push(s.to_owned());
        return one;
    }
    let head = s.substring_char(0, i);
    let rest = s.substring_char(i + 1, n);
    let tail_fields = split_char(rest, sep);
    let mut fields: Vec<String> = Vec::new();
    fields.push(head.to_owned());
    let mut k: usize = 0;
    while k < tail_fields.len()
        invariant
            fields@.len() == k + 1,
            k <= tail_fields@.len(),
            fields@[0]@ == head@,
            forall|j: int| 1 <= j < fields@.len() ==> #[trigger] fields@[j]@ == tail_fields@[j - 1]@,
        decreases tail_fields@.len() - k,
    {
        fields.push(tail_fields[k].clone());
        k += 1;
    }
    proof {
        let sp = spec_split(s@, sep);
        let tail_spec = spec_split(s@.subrange(i as int + 1, s@.len() as int), sep);
        assert(sp == seq![s@.subrange(0, i as int)] + tail_spec);
        assert(rest@ == s@.subrange(i as int + 1, s@.len() as int));
        assert forall|j: int| 0 <= j < fields@.len() implies #[trigger] fields@[j]@ == sp[j] by {
            if j == 0 {
                assert(sp[0] == s@.subrange(0, i as int));
            } else {
                assert(fields@[j]@ == tail_fields@[j - 1]@);
                assert(tail_fields@[j - 1]@ == tail_spec[j - 1]);
                assert(sp[j] == tail_spec[j - 1]);
            }
        }
    }
    fields
}

proof fn lemma_dec_val_push(s: Seq<char>, c: char)
    ensures
        dec_val(s.push(c)) == dec_val(s) * 10 + (c as u32 - 48),
{
    assert(s.push(c).drop_last() =~= s);
    assert(s.push(c).last() == c);
}

proof fn lemma_dec_val_nonneg(s: Seq<char>)
    requires
        all_digits(s),
    ensures
        dec_val(s) >= 0,
    decreases s.len(),
{
    if s.len() > 0 {
        assert(all_digits(s.drop_last())) by {
            assert(forall|i: int|
                0 <= i < s.len() - 1 ==> #[trigger] s.drop_last()[i] == s[i]);
        }
        lemma_dec_val_nonneg(s.drop_last());
    }
}

proof fn lemma_dec_val_prefix_le(s: Seq<char>, k: int)
    requires
        all_digits(s),
        0 <= k <= s.len(),
    ensures
        dec_val(s.subrange(0, k)) <= dec_val(s),
    decreases s.len() - k,
{
    if k == s.len() {
        assert(s.subrange(0, k) =~= s);
    } else {
        lemma_dec_val_prefix_le(s, k + 1);
        let p = s.subrange(0, k);
        let q = s.subrange(0, k + 1);
        assert(q =~= p.push(s[k]));
        lemma_dec_val_push(p, s[k]);
        assert(all_digits(p)) by {
            assert(forall|i: int| 0 <= i < k ==> #[trigger] p[i] == s[i]);
        }
        lemma_dec_val_nonneg(p);
    }
}

/// Parse an unsigned 32-bit decimal number, as `str::parse::<u32>` does.
pub fn parse_u32_str(s: &str) -> (r: Option<u32>)
    ensures
        r == parse_u32_spec(s@),
{
    let ghost b: Seq<char> = if s@.len() >= 1 && s@[0] == '+' {
        s@.drop_first()
    } else {
        s@
    };
    match parse_u64_str(s) {
        Some(v) => {
            proof {
                assert(all_digits(b));
                lemma_dec_val_nonneg(b);
                assert(dec_val(b) == v);
            }
            if v <= u32::MAX as u64 {
                Some(v as u32)
            } else {
                None
            }
        },
        None => None,
    }
}

/// Parse an unsigned 64-bit decimal number, as `str::parse::<u64>` does.
pub fn parse_u64_str(s: &str) -> (r: Option<u64>)
    ensures
        r == parse_u64_spec(s@),
{
    let n = s.unicode_len();
    let mut i: usize = 0;
    if n >= 1 && s.get_char(0) == '+' {
        i = 1;
    }
    let ghost start = i as int;
    let ghost body = s@.subrange(start, n as int);
    proof {
        if start == 1 {
            assert(body =~= s@.drop_first());
        } else {
            assert(body =~= s@);
        }
    }
    if i == n {
        return None;
    }
    let mut acc: u64 = 0;
    while i < n
        invariant
            n == s@.len(),
            start <= i as int <= n,
            start == if s@.len() >= 1 && s@[0] == '+' {
                1int
            } else {
                0int
            },
            body == s@.subrange(start, n as int),
            start == 0 ==> body == s@,
            body.len() > 0,
            forall|j: int| start <= j < i as int ==> is_digit_char(#[trigger] s@[j]),
            acc == dec_val(s@.subrange(start, i as int)),
        decreases n - i,
    {
        let c = s.get_char(i);
        let u = c as u32;
        if u < 48 || u > 57 {
            proof {
                assert(!is_digit_char(body[i as int - start]));
            }
            return None;
        }
        let d = (u - 48) as u64;
        proof {
            lemma_dec_val_push(s@.subrange(start, i as int), s@[i as int]);
            assert(s@.subrange(start, i as int + 1) =~= s@.subrange(start, i as int).push(
                s@[i as int],
            ));
        }
        let wide: u128 = acc as u128 * 10 + d as u128;
        if wide > u64::MAX as u128 {
            proof {
                let pre = s@.subrange(start, i as int + 1);
                assert(dec_val(pre) == wide);
                if all_digits(body) {
                    assert(pre =~= body.subrange(0, i as int + 1 - start));
                    lemma_dec_val_prefix_le(body, i as int + 1 - start);
                    assert(dec_val(body) > u64::MAX);
                    assert(parse_u64_spec(s@) is None);
                } else {
                    assert(!all_digits(body));
                    assert(parse_u64_spec(s@) is None);
                }
            }
            return None;
        }
        acc = wide as u64;
        i += 1;
    }
    proof {
        assert(body =~= s@.subrange(start, n as int));
        assert(forall|j: int| 0 <= j < body.len() ==> is_digit_char(#[trigger] body[j]));
    }
    Some(acc)
}

/// Parse a signed 64-bit decimal number, as `str::parse::<i64>` does.
pub fn parse_i64_str(s: &str) -> (r: Option<i64>)
    ensures
        r == parse_i64_spec(s@),
{
    let n = s.unicode_len();
    if n == 0 {
        return None;
    }
    let c0 = s.get_char(0);
    let ghost b: Seq<char> = if s@[0] == '-' || s@[0] == '+' {
        s@.drop_first()
    } else {
        s@
    };
    if c0 == '-' {
        let rest = s.substring_char(1, n);
        proof {
            assert(rest@ =~= s@.drop_first());
        }
        if n >= 2 && s.get_char(1) == '+' {
            proof {
                assert(!is_digit_char(b[0]));
            }
            return None;
        }
        let ghost rb: Seq<char> = if rest@.len() >= 1 && rest@[0] == '+' {
            rest@.drop_first()
        } else {
            rest@
        };
        proof {
            assert(rb == b);
        }
        match parse_u64_str(rest) {
            Some(v) => {
                proof {
                    assert(all_digits(b));
                    lemma_dec_val_nonneg(b);
                    assert(dec_val(b) == v);
                }
                if v <= 9223372036854775807u64 {
                    Some(-(v as i64))
                } else if v == 9223372036854775808u64 {
                    Some(i64::MIN)
                } else {
                    None
                }
            },
            None => None,
        }
    } else {
        let ghost rb: Seq<char> = if s@.len() >= 1 && s@[0] == '+' {
            s@.drop_first()
        } else {
            s@
        };
        proof {
            assert(rb == b);
        }
        match parse_u64_str(s) {
            Some(v) => {
                proof {
                    assert(all_digits(b));
                    lemma_dec_val_nonneg(b);
                    assert(dec_val(b) == v);
                }
                if v <= i64::MAX as u64 {
                    Some(v as i64)
                } else {
                    None
                }
            },
            None => None,
        }
    }
}

/// The digit character of a value below ten.
fn digit_str(d: u64) -> (r: &'static str)
    requires
        d < 10,
    ensures
        r@ == seq![digit_char(d as int)],
{
    let r: &'static str = if d == 0 {
        "0"
    } else if d == 1 {
        "1"
    } else if d == 2 {
        "2"
    } else if d == 3 {
        "3"
    } else if d == 4 {
        "4"
    } else if d == 5 {
        "5"
    } else if d == 6 {
        "6"
    } else if d == 7 {
        "7"
    } else if d == 8 {
        "8"
    } else {
        "9"
    };
    proof {
        reveal_strlit("0");
        reveal_strlit("1");
        reveal_strlit("2");
        reveal_strlit("3");
        reveal_strlit("4");
        reveal_strlit("5");
        reveal_strlit("6");
        reveal_strlit("7");
        reveal_strlit("8");
        reveal_strlit("9");
        assert(r@ =~= seq![digit_char(d as int)]);
    }
    r
}

/// The canonical decimal text of an unsigned value.
pub fn u64_to_dec(v: u64) -> (r: String)
    ensures
        r@ == u64_dec_str(v as int),
    decreases v,
{
    if v < 10 {
        digit_str(v).to_owned()
    } else {
        let high = u64_to_dec(v / 10);
        let low = digit_str(v % 10);
        let r = high.concat(low);
        proof {
            assert(r@ =~= u64_dec_str(v as int));
        }
        r
    }
}

/// The canonical decimal text of a signed value.
pub fn i64_to_dec(v: i64) -> (r: String)
    ensures
        r@ == i64_dec_str(v as int),
{
    if v >= 0 {
        u64_to_dec(v as u64)
    } else {
        let magnitude: u64 = if v == i64::MIN {
            9223372036854775808u64
        } else {
            (-v) as u64
        };
        let mut r = String::from_str("-");
        r.append(u64_to_dec(magnitude).as_str());
        proof {
            reveal_strlit("-");
            assert(r@ =~= i64_dec_str(v as int));
        }
        r
    }
}

/// Every character of the canonical decimal text is a digit, and its
/// value is the one printed.
pub proof fn lemma_u64_dec_str_val(v: int)
    requires
        v >= 0,
    ensures
        u64_dec_str(v).len() >= 1,
        all_digits(u64_dec_str(v)),
        dec_val(u64_dec_str(v)) == v,
    decreases v,
{
    if v < 10 {
        let s = u64_dec_str(v);
        assert(s.drop_last() =~= Seq::<char>::empty());
        assert(dec_val(s.drop_last()) == 0);
        assert(digit_char(v) as u32 - 48 == v);
    } else {
        lemma_u64_dec_str_val(v / 10);
        let high = u64_dec_str(v / 10);
        let s = u64_dec_str(v);
        assert(s =~= high.push(digit_char(v % 10)));
        lemma_dec_val_push(high, digit_char(v % 10));
        assert(digit_char(v % 10) as u32 - 48 == v % 10);
        assert(all_digits(s)) by {
            assert(forall|i: int| 0 <= i < high.len() ==> #[trigger] s[i] == high[i]);
            assert(s[s.len() - 1] == digit_char(v % 10));
        }
    }
}

/// Printing then parsing an unsigned value gives it back.
pub proof fn lemma_u64_dec_roundtrip(v: u64)
    ensures
        parse_u64_spec(u64_dec_str(v as int)) == Some(v),
{
    lemma_u64_dec_str_val(v as int);
    let s = u64_dec_str(v as int);
    assert(s[0] != '+') by {
        assert(is_digit_char(s[0]));
    }
}

/// Printing then parsing a signed value gives it back.
pub proof fn lemma_i64_dec_roundtrip(v: i64)
    ensures
        parse_i64_spec(i64_dec_str(v as int)) == Some(v),
{
    if v >= 0 {
        lemma_u64_dec_str_val(v as int);
        let s = i64_dec_str(v as int);
        assert(is_digit_char(s[0]));
    } else {
        lemma_u64_dec_str_val(-(v as int));
        let m = u64_dec_str(-(v as int));
        let s = i64_dec_str(v as int);
        assert(s[0] == '-');
        assert(s.drop_first() =~= m);
    }
}

/// The first `n` characters of a sequence (all of them when it is
/// shorter).
pub open spec fn spec_take(s: Seq<char>, n: int) -> Seq<char> {
    if n <= s.len() {
        s.subrange(0, n)
    } else {
        s
    }
}

/// The first `n` characters of `s` (all of them when `s` is shorter).
pub fn truncate_chars(s: &str, n: usize) -> (r: String)
    ensures
        r@ == spec_take(s@, n as int),
{
    let len = s.unicode_len();
    let end = if n <= len {
        n
    } else {
        len
    };
    let r = s.substring_char(0, end).to_owned();
    proof {
        assert(r@ =~= spec_take(s@, n as int));
    }
    r
}

} // verus!
