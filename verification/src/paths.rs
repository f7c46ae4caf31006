use vstd::prelude::*;
use vstd::string::StrSliceExecFns;
use vstd::string::StringExecFns;

use crate::errors::Error;

verus! {

/// Model of one path segment: an object key, or a bracketed array index
/// carried as its digit text.
pub enum SegV {
    Key(Seq<char>),
    Idx(Seq<char>),
}

/// One step of a path: an object key (a leading bare name or `.name`), or an
/// array index (`[3]`) carried as its digit text.
#[derive(Debug, PartialEq, Eq)]
pub enum Segment {
    Key(String),
    Idx(String),
}

impl DeepView for Segment {
    type V = SegV;

    open spec fn deep_view(&self) -> SegV {
        match self {
            Segment::Key(s) => SegV::Key(s@),
            Segment::Idx(s) => SegV::Idx(s@),
        }
    }
}

/// The deep view of a sequence of segments.
pub open spec fn segs_dv(s: Seq<Segment>) -> Seq<SegV> {
    Seq::new(
        s.len(),
        |i: int|
            if 0 <= i < s.len() {
                s[i].deep_view()
            } else {
                SegV::Key(Seq::empty())
            },
    )
}

pub proof fn lemma_segs_dv_push(pre: Seq<Segment>, x: Segment)
    ensures
        segs_dv(pre.push(x)) == segs_dv(pre).push(x.deep_view()),
{
    assert(segs_dv(pre.push(x)) =~= segs_dv(pre).push(x.deep_view()));
}

/// The text a segment acts with: the key itself, or an index's digit text.
pub open spec fn seg_key_str(s: SegV) -> Seq<char> {
    match s {
        SegV::Key(k) => k,
        SegV::Idx(d) => d,
    }
}

/// The text a segment acts with, as the unflattener reads it.
pub fn seg_key(seg: &Segment) -> (r: &String)
    ensures
        r@ == seg_key_str(seg.deep_view()),
{
    match seg {
        Segment::Key(s) => s,
        Segment::Idx(s) => s,
    }
}

/// A key segment may use any character except the three structural ones.
pub open spec fn is_key_char(c: char) -> bool {
    c != '.' && c != '[' && c != ']'
}

pub open spec fn is_digit_char(c: char) -> bool {
    c == '0' || c == '1' || c == '2' || c == '3' || c == '4' || c == '5' || c == '6' || c == '7'
        || c == '8' || c == '9'
}

/// Numeric value of one decimal digit character.
pub open spec fn digit_val(c: char) -> nat
    recommends
        is_digit_char(c),
{
    if c == '0' {
        0
    } else if c == '1' {
        1
    } else if c == '2' {
        2
    } else if c == '3' {
        3
    } else if c == '4' {
        4
    } else if c == '5' {
        5
    } else if c == '6' {
        6
    } else if c == '7' {
        7
    } else if c == '8' {
        8
    } else {
        9
    }
}

/// The decimal digit character for a value below ten.
pub open spec fn digit_char(d: nat) -> char
    recommends
        d < 10,
{
    if d == 0 {
        '0'
    } else if d == 1 {
        '1'
    } else if d == 2 {
        '2'
    } else if d == 3 {
        '3'
    } else if d == 4 {
        '4'
    } else if d == 5 {
        '5'
    } else if d == 6 {
        '6'
    } else if d == 7 {
        '7'
    } else if d == 8 {
        '8'
    } else {
        '9'
    }
}

/// Length of the run of key characters starting at position `i`.
pub open spec fn take_key(s: Seq<char>, i: int) -> nat
    decreases s.len() - i,
{
    if 0 <= i && i < s.len() && is_key_char(s[i]) {
        (1 + take_key(s, i + 1)) as nat
    } else {
        0
    }
}

/// Length of the run of decimal digits starting at position `i`.
pub open spec fn take_digits(s: Seq<char>, i: int) -> nat
    decreases s.len() - i,
{
    if 0 <= i && i < s.len() && is_digit_char(s[i]) {
        (1 + take_digits(s, i + 1)) as nat
    } else {
        0
    }
}

/// A key that stands alone as a path: non-empty, of key characters only.
pub open spec fn plain_key(k: Seq<char>) -> bool {
    k.len() > 0 && forall|i: int| 0 <= i < k.len() ==> is_key_char(#[trigger] k[i])
}

/// A non-empty run of key characters is a path of exactly one key segment.
pub proof fn lemma_parse_bare_key(k: Seq<char>)
    requires
        plain_key(k),
    ensures
        parse_path(k) == Some(seq![SegV::Key(k)]),
{
    lemma_take_key_all(k, 0);
    assert(parse_segs(k, k.len() as int) == Some(Seq::<SegV>::empty()));
    assert(k.subrange(0, k.len() as int) =~= k);
    assert(seq![SegV::Key(k.subrange(0, k.len() as int))] + Seq::<SegV>::empty() =~= seq![
        SegV::Key(k),
    ]);
}

/// A run made of key characters alone is taken whole.
pub proof fn lemma_take_key_all(s: Seq<char>, i: int)
    requires
        0 <= i <= s.len(),
        forall|j: int| i <= j < s.len() ==> is_key_char(#[trigger] s[j]),
    ensures
        take_key(s, i) == s.len() - i,
    decreases s.len() - i,
{
    if i < s.len() {
        lemma_take_key_all(s, i + 1);
    }
}

/// A key run ends exactly at the first structural character.
pub proof fn lemma_take_key_upto(s: Seq<char>, i: int, b: int)
    requires
        0 <= i <= b < s.len(),
        forall|j: int| i <= j < b ==> is_key_char(#[trigger] s[j]),
        !is_key_char(s[b]),
    ensures
        take_key(s, i) == b - i,
    decreases b - i,
{
    if i < b {
        lemma_take_key_upto(s, i + 1, b);
    }
}

/// A digit run ends exactly at the first non-digit.
pub proof fn lemma_take_digits_upto(s: Seq<char>, i: int, b: int)
    requires
        0 <= i <= b < s.len(),
        forall|j: int| i <= j < b ==> is_digit_char(#[trigger] s[j]),
        !is_digit_char(s[b]),
    ensures
        take_digits(s, i) == b - i,
    decreases b - i,
{
    if i < b {
        lemma_take_digits_upto(s, i + 1, b);
    }
}

/// The path of an array element: the parent path, then the index in
/// brackets.
pub open spec fn idx_path(path: Seq<char>, j: int) -> Seq<char> {
    path + seq!['['] + dec_str(j as nat) + seq![']']
}

/// Where each piece of an indexed path stands in the whole.
pub proof fn lemma_idx_path_parts(path: Seq<char>, j: int)
    requires
        0 <= j,
    ensures
        idx_path(path, j).len() == path.len() + dec_str(j as nat).len() + 2,
        forall|t: int|
            0 <= t < path.len() ==> #[trigger] idx_path(path, j)[t] == path[t],
        idx_path(path, j)[path.len() as int] == '[',
        forall|t: int|
            0 <= t < dec_str(j as nat).len() ==> #[trigger] idx_path(path, j)[path.len() + 1 + t]
                == dec_str(j as nat)[t],
        idx_path(path, j)[idx_path(path, j).len() - 1] == ']',
{
    let d = dec_str(j as nat);
    let head = path + seq!['['];
    let mid = head + d;
    let s = mid + seq![']'];
    assert(s == idx_path(path, j));
    assert forall|t: int| 0 <= t < path.len() implies #[trigger] idx_path(path, j)[t]
        == path[t] by {
        assert(s[t] == mid[t]);
        assert(mid[t] == head[t]);
        assert(head[t] == path[t]);
    }
    assert(s[path.len() as int] == mid[path.len() as int]);
    assert(mid[path.len() as int] == head[path.len() as int]);
    assert(head[path.len() as int] == seq!['['][0]);
    assert forall|t: int| 0 <= t < d.len() implies #[trigger] idx_path(path, j)[path.len() + 1 + t]
        == d[t] by {
        assert(s[path.len() + 1 + t] == mid[path.len() + 1 + t]);
        assert(mid[path.len() + 1 + t] == d[t]);
    }
    assert(s[s.len() - 1] == seq![']'][0]);
}

/// Distinct indices give distinct element paths below one parent.
pub proof fn lemma_idx_path_injective(path: Seq<char>, a: int, b: int)
    requires
        0 <= a,
        0 <= b,
        idx_path(path, a) == idx_path(path, b),
    ensures
        a == b,
{
    lemma_dec_str_digits(a as nat);
    lemma_dec_str_digits(b as nat);
    lemma_idx_path_parts(path, a);
    lemma_idx_path_parts(path, b);
    let da = dec_str(a as nat);
    let db = dec_str(b as nat);
    assert(da.len() == db.len());
    assert forall|t: int| 0 <= t < da.len() implies da[t] == db[t] by {
        assert(idx_path(path, a)[path.len() + 1 + t] == da[t]);
        assert(idx_path(path, b)[path.len() + 1 + t] == db[t]);
    }
    assert(da =~= db);
    assert(digits_val(da) == digits_val(db));
}

/// An indexed path below a bare key parses to that key and that index.
pub proof fn lemma_parse_idx_path(k: Seq<char>, j: int)
    requires
        plain_key(k),
        0 <= j,
    ensures
        parse_path(idx_path(k, j)) == Some(seq![SegV::Key(k), SegV::Idx(dec_str(j as nat))]),
{
    let d = dec_str(j as nat);
    let s = idx_path(k, j);
    lemma_dec_str_digits(j as nat);
    lemma_idx_path_parts(k, j);
    assert(!is_key_char(s[k.len() as int]));
    lemma_take_key_upto(s, 0, k.len() as int);
    assert(take_key(s, 0) == k.len());
    // The digit run is exactly the rendered index.
    assert forall|t: int| k.len() + 1 <= t < k.len() + 1 + d.len() implies is_digit_char(
        #[trigger] s[t],
    ) by {
        assert(s[k.len() + 1 + (t - k.len() - 1)] == d[t - k.len() - 1]);
    }
    assert(s[k.len() as int + 1 + d.len() as int] == ']');
    assert(!is_digit_char(s[k.len() as int + 1 + d.len() as int]));
    lemma_take_digits_upto(s, k.len() as int + 1, k.len() as int + 1 + d.len() as int);
    assert(take_digits(s, k.len() as int + 1) == d.len());
    // No leading zero unless the index is zero itself.
    if d.len() > 1 {
        assert(s[k.len() as int + 1] == d[0]);
        assert(d[0] != '0');
    }
    // The bracket group ends one short of the end, and the rest is empty.
    assert(parse_segs(s, s.len() as int) == Some(Seq::<SegV>::empty()));
    assert(s.subrange(k.len() as int + 1, k.len() as int + 1 + d.len() as int) =~= d);
    assert(parse_segs(s, k.len() as int) == Some(seq![SegV::Idx(d)] + Seq::<SegV>::empty()));
    assert(seq![SegV::Idx(d)] + Seq::<SegV>::empty() =~= seq![SegV::Idx(d)]);
    assert(s.subrange(0, k.len() as int) =~= k);
    assert(seq![SegV::Key(s.subrange(0, k.len() as int))] + seq![SegV::Idx(d)] =~= seq![
        SegV::Key(k),
        SegV::Idx(d),
    ]);
}

/// Numeric value of a run of decimal digits, most significant first.
pub open spec fn digits_val(s: Seq<char>) -> nat
    decreases s.len(),
{
    if s.len() == 0 {
        0
    } else {
        digits_val(s.drop_last()) * 10 + digit_val(s.last())
    }
}

pub open spec fn all_digits(s: Seq<char>) -> bool {
    forall|i: int| 0 <= i < s.len() ==> is_digit_char(#[trigger] s[i])
}

/// The array-index reading of a segment's text: a non-empty digit run whose
/// value fits the machine's index range.
pub open spec fn parse_idx(s: Seq<char>) -> Option<nat> {
    if s.len() > 0 && all_digits(s) && digits_val(s) <= usize::MAX as nat {
        Some(digits_val(s))
    } else {
        None
    }
}

/// A digit prefix never exceeds the value of the full run.
pub proof fn lemma_digits_val_prefix(s: Seq<char>, m: int)
    requires
        0 <= m <= s.len(),
    ensures
        digits_val(s.take(m)) <= digits_val(s),
    decreases s.len() - m,
{
    if m < s.len() {
        assert(s.take(m + 1).drop_last() =~= s.take(m));
        assert(s.take(m + 1).last() == s[m]);
        assert(digits_val(s.take(m + 1)) == digits_val(s.take(m)) * 10 + digit_val(s[m]));
        assert(digits_val(s.take(m)) * 10 >= digits_val(s.take(m)));
        lemma_digits_val_prefix(s, m + 1);
    } else {
        assert(s.take(m) =~= s);
    }
}

/// Parses the remainder of a path after its leading key: a sequence of
/// `"." key` and `"[" digits "]"` groups, ending exactly at the end of the
/// text. `None` when the text does not match the grammar.
pub open spec fn parse_segs(s: Seq<char>, i: int) -> Option<Seq<SegV>>
    decreases s.len() - i,
{
    if i >= s.len() {
        Some(Seq::empty())
    } else if i < 0 {
        None
    } else if s[i] == '.' {
        let k = take_key(s, i + 1);
        if k == 0 {
            None
        } else if i + 1 + k > s.len() {
            None
        } else {
            match parse_segs(s, i + 1 + k) {
                None => None,
                Some(rest) => Some(seq![SegV::Key(s.subrange(i + 1, i + 1 + k))] + rest),
            }
        }
    } else if s[i] == '[' {
        let d = take_digits(s, i + 1);
        if d == 0 {
            None
        } else if d > 1 && s[i + 1] == '0' {
            None
        } else if i + 1 + d >= s.len() {
            None
        } else if s[i + 1 + d] != ']' {
            None
        } else {
            match parse_segs(s, i + 2 + d) {
                None => None,
                Some(rest) => Some(seq![SegV::Idx(s.subrange(i + 1, i + 1 + d))] + rest),
            }
        }
    } else {
        None
    }
}

/// The path grammar: a leading non-empty key, then `"." key` and
/// `"[" digits "]"` groups. A bracketed index has no leading zeros
/// (`[0]` itself is fine). `None` when the text does not match.
pub open spec fn parse_path(s: Seq<char>) -> Option<Seq<SegV>> {
    let k = take_key(s, 0);
    if k == 0 {
        None
    } else if k > s.len() {
        None
    } else {
        match parse_segs(s, k as int) {
            None => None,
            Some(rest) => Some(seq![SegV::Key(s.subrange(0, k as int))] + rest),
        }
    }
}

fn is_key_char_x(c: char) -> (r: bool)
    ensures
        r == is_key_char(c),
{
    c != '.' && c != '[' && c != ']'
}

fn is_digit_char_x(c: char) -> (r: bool)
    ensures
        r == is_digit_char(c),
{
    c == '0' || c == '1' || c == '2' || c == '3' || c == '4' || c == '5' || c == '6' || c == '7'
        || c == '8' || c == '9'
}

fn digit_val_x(c: char) -> (r: usize)
    requires
        is_digit_char(c),
    ensures
        r as nat == digit_val(c),
{
    if c == '0' {
        0
    } else if c == '1' {
        1
    } else if c == '2' {
        2
    } else if c == '3' {
        3
    } else if c == '4' {
        4
    } else if c == '5' {
        5
    } else if c == '6' {
        6
    } else if c == '7' {
        7
    } else if c == '8' {
        8
    } else {
        9
    }
}

fn digit_str(d: usize) -> (r: &'static str)
    requires
        d < 10,
    ensures
        r@ == seq![digit_char(d as nat)],
{
    let r: &'static str = if d == 0 {
        "0"
    } else if d == 1 {
        "1"
    } else if d == 2 {
        "2"
    } else if d == 3 {
        "3"
    } else if d == 4 {
        "4"
    } else if d == 5 {
        "5"
    } else if d == 6 {
        "6"
    } else if d == 7 {
        "7"
    } else if d == 8 {
        "8"
    } else {
        "9"
    };
    proof {
        reveal_strlit("0");
        reveal_strlit("1");
        reveal_strlit("2");
        reveal_strlit("3");
        reveal_strlit("4");
        reveal_strlit("5");
        reveal_strlit("6");
        reveal_strlit("7");
        reveal_strlit("8");
        reveal_strlit("9");
        assert(r@ =~= seq![digit_char(d as nat)]);
    }
    r
}

/// Decimal text of `n`, without leading zeros (`0` for zero itself).
pub open spec fn dec_str(n: nat) -> Seq<char>
    decreases n,
{
    if n < 10 {
        seq![digit_char(n)]
    } else {
        dec_str(n / 10).push(digit_char(n % 10))
    }
}

pub proof fn lemma_dec_str_digits(n: nat)
    ensures
        dec_str(n).len() >= 1,
        all_digits(dec_str(n)),
        digits_val(dec_str(n)) == n,
        n == 0 ==> dec_str(n) == seq!['0'],
        n > 0 ==> dec_str(n)[0] != '0',
    decreases n,
{
    if n < 10 {
        let one = dec_str(n);
        assert(one == seq![digit_char(n)]);
        assert(one.drop_last() =~= Seq::<char>::empty());
        assert(one.last() == digit_char(n));
        assert(digit_val(digit_char(n)) == n);
        assert(is_digit_char(digit_char(n)));
        assert(digits_val(one) == digits_val(Seq::<char>::empty()) * 10 + n);
    } else {
        lemma_dec_str_digits(n / 10);
        let pre = dec_str(n / 10);
        let whole = pre.push(digit_char(n % 10));
        assert(dec_str(n) == whole);
        assert(whole.drop_last() =~= pre);
        assert(whole.last() == digit_char(n % 10));
        assert(digit_val(digit_char(n % 10)) == n % 10);
        assert(is_digit_char(digit_char(n % 10)));
        assert(digits_val(whole) == digits_val(pre) * 10 + n % 10);
        assert(n / 10 * 10 + n % 10 == n);
        assert(n / 10 > 0);
        assert(whole[0] == pre[0]);
        assert forall|i: int| 0 <= i < whole.len() implies is_digit_char(#[trigger] whole[i]) by {
            if i < pre.len() {
                assert(whole[i] == pre[i]);
            }
        }
    }
}

/// The paths the flattener writes are read back unchanged: rendering an
/// index in decimal and parsing that text as an array index, as the
/// unflattener does, gives the same index again.
pub proof fn lemma_index_round_trip(n: nat)
    requires
        n <= usize::MAX as nat,
    ensures
        parse_idx(dec_str(n)) == Some(n),
{
    lemma_dec_str_digits(n);
}

/// Renders `n` in decimal.
pub fn usize_to_string(n: usize) -> (s: String)
    ensures
        s@ == dec_str(n as nat),
    decreases n,
{
    if n < 10 {
        digit_str(n).to_owned()
    } else {
        let mut s = usize_to_string(n / 10);
        s.append(digit_str(n % 10));
        proof {
            assert(s@ =~= dec_str(n as nat));
        }
        s
    }
}

fn scan_key(s: &str, i: usize) -> (k: usize)
    requires
        i <= s@.len(),
        s@.len() <= usize::MAX,
    ensures
        k as nat == take_key(s@, i as int),
        i + k <= s@.len(),
{
    let n = s.unicode_len();
    let mut j: usize = i;
    while j < n
        invariant
            i <= j <= n,
            n as nat == s@.len(),
            take_key(s@, i as int) == j - i + take_key(s@, j as int),
        decreases n - j,
    {
        let c = s.get_char(j);
        if !is_key_char_x(c) {
            return j - i;
        }
        j += 1;
    }
    j - i
}

fn scan_digits(s: &str, i: usize) -> (k: usize)
    requires
        i <= s@.len(),
        s@.len() <= usize::MAX,
    ensures
        k as nat == take_digits(s@, i as int),
        i + k <= s@.len(),
{
    let n = s.unicode_len();
    let mut j: usize = i;
    while j < n
        invariant
            i <= j <= n,
            n as nat == s@.len(),
            take_digits(s@, i as int) == j - i + take_digits(s@, j as int),
        decreases n - j,
    {
        let c = s.get_char(j);
        if !is_digit_char_x(c) {
            return j - i;
        }
        j += 1;
    }
    j - i
}

/// Splits a path into its segments per the grammar; `InvalidProperty` if and
/// only if the path does not match it.
pub fn tokenize(path: &String) -> (r: Result<Vec<Segment>, Error>)
    ensures
        match r {
            Ok(segs) => parse_path(path@) == Some(segs_dv(segs@)),
            Err(e) => e == Error::InvalidProperty && parse_path(path@) is None,
        },
{
    let s = path.as_str();
    let n = s.unicode_len();
    let k0 = scan_key(s, 0);
    if k0 == 0 {
        return Err(Error::InvalidProperty);
    }
    let mut segs: Vec<Segment> = Vec::new();
    let first = s.substring_char(0, k0).to_owned();
    proof {
        lemma_segs_dv_push(segs@, Segment::Key(first));
        assert(segs_dv(segs@) =~= Seq::<SegV>::empty());
    }
    segs.push(Segment::Key(first));
    let mut i: usize = k0;
    while i < n
        invariant
            i <= n,
            n as nat == s@.len(),
            s@ == path@,
            match parse_segs(path@, i as int) {
                None => parse_path(path@) is None,
                Some(rest) => parse_path(path@) == Some(segs_dv(segs@) + rest),
            },
        decreases n - i,
    {
        let ghost old_dv = segs_dv(segs@);
        let c = s.get_char(i);
        if c == '.' {
            let k = scan_key(s, i + 1);
            if k == 0 {
                return Err(Error::InvalidProperty);
            }
            let seg = s.substring_char(i + 1, i + 1 + k).to_owned();
            let ghost sv = SegV::Key(path@.subrange(i as int + 1, i as int + 1 + k as int));
            proof {
                assert(seg@ == seg_key_str(sv));
                lemma_segs_dv_push(segs@, Segment::Key(seg));
            }
            segs.push(Segment::Key(seg));
            let ghost i0 = i as int;
            i = i + 1 + k;
            proof {
                assert(parse_segs(path@, i0) == match parse_segs(path@, i as int) {
                    None => None::<Seq<SegV>>,
                    Some(rest) => Some(seq![sv] + rest),
                });
                if parse_segs(path@, i as int) is Some {
                    let rest = parse_segs(path@, i as int)->0;
                    assert(old_dv + (seq![sv] + rest) =~= segs_dv(segs@) + rest);
                }
            }
        } else if c == '[' {
            let d = scan_digits(s, i + 1);
            if d == 0 {
                return Err(Error::InvalidProperty);
            }
            if d > 1 && s.get_char(i + 1) == '0' {
                return Err(Error::InvalidProperty);
            }
            if i + 1 + d >= n {
                return Err(Error::InvalidProperty);
            }
            if s.get_char(i + 1 + d) != ']' {
                return Err(Error::InvalidProperty);
            }
            let seg = s.substring_char(i + 1, i + 1 + d).to_owned();
            let ghost sv = SegV::Idx(path@.subrange(i as int + 1, i as int + 1 + d as int));
            proof {
                assert(seg@ == seg_key_str(sv));
                lemma_segs_dv_push(segs@, Segment::Idx(seg));
            }
            segs.push(Segment::Idx(seg));
            let ghost i0 = i as int;
            i = i + 2 + d;
            proof {
                assert(parse_segs(path@, i0) == match parse_segs(path@, i as int) {
                    None => None::<Seq<SegV>>,
                    Some(rest) => Some(seq![sv] + rest),
                });
                if parse_segs(path@, i as int) is Some {
                    let rest = parse_segs(path@, i as int)->0;
                    assert(old_dv + (seq![sv] + rest) =~= segs_dv(segs@) + rest);
                }
            }
        } else {
            return Err(Error::InvalidProperty);
        }
    }
    proof {
        assert(parse_segs(path@, i as int) == Some(Seq::<SegV>::empty()));
        assert(segs_dv(segs@) + Seq::<SegV>::empty() =~= segs_dv(segs@));
    }
    Ok(segs)
}

/// Reads a segment's text as an array index, as `unflatten` must when the
/// node to descend into is an array; `InvalidProperty` if and only if the
/// text is not a digit run whose value fits the index range.
pub fn parse_index(s: &String) -> (r: Result<usize, Error>)
    ensures
        match r {
            Ok(n) => parse_idx(s@) == Some(n as nat),
            Err(e) => e == Error::InvalidProperty && parse_idx(s@) is None,
        },
{
    let st = s.as_str();
    let n = st.unicode_len();
    if n == 0 {
        return Err(Error::InvalidProperty);
    }
    let mut acc: usize = 0;
    let mut j: usize = 0;
    while j < n
        invariant
            j <= n,
            n as nat == s@.len(),
            st@ == s@,
            all_digits(s@.take(j as int)),
            acc as nat == digits_val(s@.take(j as int)),
        decreases n - j,
    {
        let c = st.get_char(j);
        if !is_digit_char_x(c) {
            proof {
                assert(!is_digit_char(s@[j as int]));
                assert(!all_digits(s@));
            }
            return Err(Error::InvalidProperty);
        }
        let d = digit_val_x(c);
        let ghost pre = s@.take(j as int);
        let ghost cur = s@.take(j as int + 1);
        proof {
            assert(cur.drop_last() =~= pre);
            assert(cur.last() == s@[j as int]);
            assert(digits_val(cur) == digits_val(pre) * 10 + digit_val(s@[j as int]));
        }
        let acc10 = match acc.checked_mul(10) {
            Some(x) => x,
            None => {
                proof {
                    lemma_digits_val_prefix(s@, j as int + 1);
                }
                return Err(Error::InvalidProperty);
            },
        };
        acc = match acc10.checked_add(d) {
            Some(x) => x,
            None => {
                proof {
                    lemma_digits_val_prefix(s@, j as int + 1);
                }
                return Err(Error::InvalidProperty);
            },
        };
        j += 1;
        proof {
            assert(forall|l: int|
                0 <= l < j as int ==> is_digit_char(#[trigger] s@.take(j as int)[l]));
        }
    }
    proof {
        assert(s@.take(j as int) =~= s@);
    }
    Ok(acc)
}

} // verus!
