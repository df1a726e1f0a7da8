//! Text helpers: decimal rendering with thousands separators, and splitting
//! and joining of pool paths.
use vstd::prelude::*;

verus! {

/// Appends `c` to `s` with `String::push`. Trusted: `String::push` appends
/// exactly that character, as its documentation states.
#[verifier::external_body]
fn push_char(s: &mut String, c: char)
    ensures
        final(s)@ == old(s)@.push(c),
{
    s.push(c)
}

/// The ASCII digit for a value below ten.
pub open spec fn digit_char(d: int) -> char {
    (('0' as int) + d) as char
}

/// The decimal notation of `n`, without leading zeros.
pub open spec fn decimal(n: nat) -> Seq<char>
    decreases n,
{
    if n < 10 {
        seq![digit_char(n as int)]
    } else {
        decimal(n / 10).push(digit_char((n % 10) as int))
    }
}

/// Digits with a comma between each group of three, counted from the right.
pub open spec fn with_separators(digits: Seq<char>) -> Seq<char>
    decreases digits.len(),
{
    if digits.len() <= 3 {
        digits
    } else {
        with_separators(digits.subrange(0, digits.len() - 3)) + seq![','] + digits.subrange(
            digits.len() - 3,
            digits.len() as int,
        )
    }
}

fn digit_of(d: u64) -> (c: char)
    requires
        d < 10,
    ensures
        c == digit_char(d as int),
{
    if d == 0 { '0' }
    else if d == 1 { '1' }
    else if d == 2 { '2' }
    else if d == 3 { '3' }
    else if d == 4 { '4' }
    else if d == 5 { '5' }
    else if d == 6 { '6' }
    else if d == 7 { '7' }
    else if d == 8 { '8' }
    else { '9' }
}

/// The decimal digits of `n`, most significant first.
fn decimal_digits(n: u64) -> (digits: Vec<char>)
    ensures
        digits@ == decimal(n as nat),
        1 <= digits@.len(),
    decreases n,
{
    if n < 10 {
        let mut v: Vec<char> = Vec::new();
        v.push(digit_of(n));
        v
    } else {
        let mut v = decimal_digits(n / 10);
        v.push(digit_of(n % 10));
        v
    }
}

/// Renders `n` in decimal.
pub fn u64_to_decimal(n: u64) -> (s: String)
    ensures
        s@ == decimal(n as nat),
{
    let digits = decimal_digits(n);
    let mut s = String::new();
    let mut i: usize = 0;
    while i < digits.len()
        invariant
            0 <= i <= digits@.len(),
            s@ == digits@.subrange(0, i as int),
        decreases digits@.len() - i,
    {
        push_char(&mut s, digits[i]);
        i = i + 1;
        assert(s@ =~= digits@.subrange(0, i as int));
    }
    assert(digits@.subrange(0, digits@.len() as int) =~= digits@);
    s
}

/// The decimal notation of a signed integer, with a leading minus sign when
/// it is negative.
pub open spec fn signed_decimal(n: int) -> Seq<char> {
    if n < 0 {
        seq!['-'] + decimal((-n) as nat)
    } else {
        decimal(n as nat)
    }
}

/// Renders `n` in decimal.
pub fn i64_to_decimal(n: i64) -> (s: String)
    ensures
        s@ == signed_decimal(n as int),
{
    if n < 0 {
        let magnitude: u64 = if n == i64::MIN {
            9223372036854775808u64
        } else {
            (-n) as u64
        };
        let digits = u64_to_decimal(magnitude);
        let mut s = String::new();
        push_char(&mut s, '-');
        s.append(digits.as_str());
        s
    } else {
        u64_to_decimal(n as u64)
    }
}

/// Renders `n` in decimal with a comma between each group of three digits,
/// counted from the right (1234567 becomes "1,234,567").
pub fn add_thousands_separators(n: u64) -> (s: String)
    ensures
        s@ == with_separators(decimal(n as nat)),
{
    let digits = decimal_digits(n);
    let ghost ds = digits@;
    let len = digits.len();
    let head: usize = if len % 3 == 0 { 3 } else { len % 3 };
    let mut s = String::new();
    let mut i: usize = 0;
    while i < head
        invariant
            ds == digits@,
            len == ds.len(),
            1 <= head <= 3,
            head <= len,
            (len - head) % 3 == 0,
            0 <= i <= head,
            s@ == ds.subrange(0, i as int),
        decreases head - i,
    {
        push_char(&mut s, digits[i]);
        i = i + 1;
        assert(s@ =~= ds.subrange(0, i as int));
    }
    assert(with_separators(ds.subrange(0, head as int)) == ds.subrange(0, head as int));
    while i < len
        invariant
            ds == digits@,
            len == ds.len(),
            1 <= head <= 3,
            head <= i <= len,
            (i - head) % 3 == 0,
            (len - head) % 3 == 0,
            s@ == with_separators(ds.subrange(0, i as int)),
        decreases len - i,
    {
        let ghost before = s@;
        push_char(&mut s, ',');
        push_char(&mut s, digits[i]);
        push_char(&mut s, digits[i + 1]);
        push_char(&mut s, digits[i + 2]);
        proof {
            let next = ds.subrange(0, i + 3);
            assert(next.subrange(0, next.len() - 3) =~= ds.subrange(0, i as int));
            assert(next.subrange(next.len() - 3, next.len() as int) =~= ds.subrange(i as int, i + 3));
            assert(s@ =~= with_separators(next));
        }
        i = i + 3;
    }
    assert(ds.subrange(0, len as int) =~= ds);
    s
}

/// A separator between the components of a pool path.
pub open spec fn is_path_separator(c: char) -> bool {
    c == '/' || c == '\\'
}

/// Number of characters before the first separator of `s`.
pub open spec fn run_len(s: Seq<char>) -> nat
    decreases s.len(),
{
    if s.len() == 0 || is_path_separator(s[0]) {
        0
    } else {
        1 + run_len(s.drop_first())
    }
}

/// The non-empty components of `s` between separators, in order.
pub open spec fn path_pieces(s: Seq<char>) -> Seq<Seq<char>>
    decreases s.len(),
{
    if s.len() == 0 {
        Seq::empty()
    } else if is_path_separator(s[0]) {
        path_pieces(s.drop_first())
    } else {
        let n = run_len(s);
        if 0 < n <= s.len() {
            seq![s.take(n as int)] + path_pieces(s.skip(n as int))
        } else {
            Seq::empty()
        }
    }
}

proof fn lemma_run_len_bound(s: Seq<char>)
    ensures
        run_len(s) <= s.len(),
        s.len() > 0 && !is_path_separator(s[0]) ==> run_len(s) > 0,
    decreases s.len(),
{
    if s.len() > 0 && !is_path_separator(s[0]) {
        lemma_run_len_bound(s.drop_first());
    }
}

/// Splits a pool path into its non-empty components; both '/' and '\'
/// separate components.
pub fn split_path(name: &str) -> (parts: Vec<&str>)
    ensures
        parts@.len() == path_pieces(name@).len(),
        forall|k: int| 0 <= k < parts@.len() ==> #[trigger] parts@[k]@ == path_pieces(name@)[k],
{
    let ghost s = name@;
    let len = name.unicode_len();
    let mut parts: Vec<&str> = Vec::new();
    let mut p: usize = 0;
    assert(s.skip(0) =~= s);
    while p < len
        invariant
            s == name@,
            len == s.len(),
            0 <= p <= len,
            parts@.len() + path_pieces(s.skip(p as int)).len() == path_pieces(s).len(),
            forall|k: int| 0 <= k < parts@.len() ==> #[trigger] parts@[k]@ == path_pieces(s)[k],
            forall|k: int|
                0 <= k < path_pieces(s.skip(p as int)).len() ==> #[trigger] path_pieces(s.skip(p as int))[k]
                    == path_pieces(s)[parts@.len() + k],
        decreases len - p,
    {
        let c = name.get_char(p);
        let ghost rest = s.skip(p as int);
        if c == '/' || c == '\\' {
            assert(rest.drop_first() =~= s.skip(p + 1));
            p = p + 1;
        } else {
            let mut q: usize = p;
            while q < len && !(name.get_char(q) == '/' || name.get_char(q) == '\\')
                invariant
                    s == name@,
                    len == s.len(),
                    p <= q <= len,
                    run_len(rest) == (q - p) + run_len(s.skip(q as int)),
                    rest == s.skip(p as int),
                decreases len - q,
            {
                assert(s.skip(q as int).drop_first() =~= s.skip(q + 1));
                q = q + 1;
            }
            proof {
                if q < len {
                    assert(s.skip(q as int)[0] == s[q as int]);
                }
                assert(run_len(s.skip(q as int)) == 0);
                lemma_run_len_bound(rest);
                assert(rest.take((q - p) as int) =~= s.subrange(p as int, q as int));
                assert(rest.skip((q - p) as int) =~= s.skip(q as int));
            }
            let piece = name.substring_char(p, q);
            let ghost old_len = parts@.len();
            parts.push(piece);
            proof {
                assert(path_pieces(rest) == seq![rest.take((q - p) as int)] + path_pieces(s.skip(q as int)));
                assert(path_pieces(rest)[0] == s.subrange(p as int, q as int));
                assert forall|k: int| 0 <= k < path_pieces(s.skip(q as int)).len() implies
                    #[trigger] path_pieces(s.skip(q as int))[k] == path_pieces(s)[parts@.len() + k] by {
                    assert(path_pieces(s.skip(q as int))[k] == path_pieces(rest)[k + 1]);
                }
            }
            p = q;
        }
    }
    proof {
        assert(s.skip(len as int) =~= Seq::<char>::empty());
    }
    parts
}

/// Joins components with '/' between them.
pub open spec fn joined(parts: Seq<Seq<char>>) -> Seq<char>
    decreases parts.len(),
{
    if parts.len() == 0 {
        Seq::empty()
    } else if parts.len() == 1 {
        parts[0]
    } else {
        joined(parts.drop_last()) + seq!['/'] + parts.last()
    }
}

/// Joins pool path components with '/' between them.
pub fn join_path(components: &[&str]) -> (path: String)
    ensures
        path@ == joined(Seq::new(components@.len(), |k: int| components@[k]@)),
{
    let ghost views = Seq::new(components@.len(), |k: int| components@[k]@);
    let mut path = String::new();
    let mut i: usize = 0;
    while i < components.len()
        invariant
            views == Seq::new(components@.len(), |k: int| components@[k]@),
            0 <= i <= components@.len(),
            path@ == joined(views.take(i as int)),
        decreases components@.len() - i,
    {
        if i > 0 {
            push_char(&mut path, '/');
        }
        path.append(components[i]);
        proof {
            let next = views.take(i + 1);
            assert(next.drop_last() =~= views.take(i as int));
            if i == 0 {
                assert(path@ =~= next[0]);
            }
        }
        i = i + 1;
    }
    assert(views.take(components@.len() as int) =~= views);
    path
}

/// A component that survives a round trip through a pool path: not empty
/// and free of separators.
pub open spec fn plain_component(c: Seq<char>) -> bool {
    c.len() > 0 && forall|j: int| 0 <= j < c.len() ==> !is_path_separator(#[trigger] c[j])
}

proof fn lemma_run_len_before_separator(x: Seq<char>, y: Seq<char>)
    ensures
        run_len(x + seq!['/'] + y) == run_len(x),
        run_len(x) <= x.len(),
    decreases x.len(),
{
    lemma_run_len_bound(x);
    let z = x + seq!['/'] + y;
    if x.len() == 0 {
        assert(z[0] == '/');
    } else {
        assert(z[0] == x[0]);
        if !is_path_separator(x[0]) {
            assert(z.drop_first() =~= x.drop_first() + seq!['/'] + y);
            lemma_run_len_before_separator(x.drop_first(), y);
        }
    }
}

proof fn lemma_run_len_plain(c: Seq<char>)
    requires
        forall|j: int| 0 <= j < c.len() ==> !is_path_separator(#[trigger] c[j]),
    ensures
        run_len(c) == c.len(),
    decreases c.len(),
{
    if c.len() > 0 {
        assert(forall|j: int| 0 <= j < c.drop_first().len() ==> #[trigger] c.drop_first()[j] == c[j + 1]);
        lemma_run_len_plain(c.drop_first());
    }
}

proof fn lemma_pieces_around_separator(x: Seq<char>, y: Seq<char>)
    ensures
        path_pieces(x + seq!['/'] + y) == path_pieces(x) + path_pieces(y),
    decreases x.len(),
{
    let z = x + seq!['/'] + y;
    if x.len() == 0 {
        assert(z[0] == '/');
        assert(z.drop_first() =~= y);
        assert(path_pieces(x) + path_pieces(y) =~= path_pieces(y));
    } else if is_path_separator(x[0]) {
        assert(z[0] == x[0]);
        assert(z.drop_first() =~= x.drop_first() + seq!['/'] + y);
        lemma_pieces_around_separator(x.drop_first(), y);
    } else {
        assert(z[0] == x[0]);
        lemma_run_len_before_separator(x, y);
        lemma_run_len_bound(x);
        let m = run_len(x) as int;
        assert(z.take(m) =~= x.take(m));
        assert(z.skip(m) =~= x.skip(m) + seq!['/'] + y);
        lemma_pieces_around_separator(x.skip(m), y);
        assert(path_pieces(z) =~= path_pieces(x) + path_pieces(y));
    }
}

proof fn lemma_pieces_plain(c: Seq<char>)
    requires
        plain_component(c),
    ensures
        path_pieces(c) == seq![c],
{
    lemma_run_len_plain(c);
    assert(!is_path_separator(c[0]));
    assert(c.take(c.len() as int) =~= c);
    let rest = c.skip(c.len() as int);
    assert(rest =~= Seq::<char>::empty());
    assert(path_pieces(rest) =~= Seq::<Seq<char>>::empty());
    assert(path_pieces(c) == seq![c.take(c.len() as int)] + path_pieces(rest));
    assert(path_pieces(c) =~= seq![c]);
}

/// `s` with every separator removed.
pub open spec fn without_separators(s: Seq<char>) -> Seq<char>
    decreases s.len(),
{
    if s.len() == 0 {
        Seq::empty()
    } else if is_path_separator(s[0]) {
        without_separators(s.drop_first())
    } else {
        seq![s[0]] + without_separators(s.drop_first())
    }
}

/// The pieces written one after the other.
pub open spec fn concat_pieces(parts: Seq<Seq<char>>) -> Seq<char>
    decreases parts.len(),
{
    if parts.len() == 0 {
        Seq::empty()
    } else {
        parts[0] + concat_pieces(parts.drop_first())
    }
}

proof fn lemma_without_separators_append(a: Seq<char>, b: Seq<char>)
    ensures
        without_separators(a + b) == without_separators(a) + without_separators(b),
    decreases a.len(),
{
    if a.len() == 0 {
        assert(a + b =~= b);
        assert(without_separators(a) + without_separators(b) =~= without_separators(b));
    } else {
        assert((a + b)[0] == a[0]);
        assert((a + b).drop_first() =~= a.drop_first() + b);
        lemma_without_separators_append(a.drop_first(), b);
        if !is_path_separator(a[0]) {
            assert(seq![a[0]] + without_separators(a.drop_first()) + without_separators(b) =~= seq![a[0]]
                + (without_separators(a.drop_first()) + without_separators(b)));
        }
    }
}

proof fn lemma_without_separators_plain(c: Seq<char>)
    requires
        forall|j: int| 0 <= j < c.len() ==> !is_path_separator(#[trigger] c[j]),
    ensures
        without_separators(c) == c,
    decreases c.len(),
{
    if c.len() > 0 {
        assert(forall|j: int| 0 <= j < c.drop_first().len() ==> #[trigger] c.drop_first()[j] == c[j + 1]);
        lemma_without_separators_plain(c.drop_first());
        assert(seq![c[0]] + c.drop_first() =~= c);
    }
}

proof fn lemma_run_is_plain(s: Seq<char>)
    ensures
        forall|j: int| 0 <= j < run_len(s) ==> !is_path_separator(#[trigger] s[j]),
    decreases s.len(),
{
    lemma_run_len_bound(s);
    if s.len() > 0 && !is_path_separator(s[0]) {
        lemma_run_is_plain(s.drop_first());
        assert forall|j: int| 0 <= j < run_len(s) implies !is_path_separator(#[trigger] s[j]) by {
            if j > 0 {
                assert(s[j] == s.drop_first()[j - 1]);
            }
        }
    }
}

/// The pieces that `split_path` gives are non-empty and free of separators,
/// and written one after the other they are the path with its separators
/// removed.
pub proof fn lemma_path_pieces_partition(s: Seq<char>)
    ensures
        forall|k: int| 0 <= k < path_pieces(s).len() ==> plain_component(#[trigger] path_pieces(s)[k]),
        concat_pieces(path_pieces(s)) == without_separators(s),
    decreases s.len(),
{
    if s.len() == 0 {
    } else if is_path_separator(s[0]) {
        lemma_path_pieces_partition(s.drop_first());
    } else {
        lemma_run_len_bound(s);
        lemma_run_is_plain(s);
        let n = run_len(s) as int;
        let head = s.take(n);
        let rest = s.skip(n);
        lemma_path_pieces_partition(rest);
        let pieces = path_pieces(s);
        assert(pieces == seq![head] + path_pieces(rest));
        assert forall|j: int| 0 <= j < head.len() implies !is_path_separator(#[trigger] head[j]) by {
            assert(head[j] == s[j]);
        }
        assert forall|k: int| 0 <= k < pieces.len() implies plain_component(#[trigger] pieces[k]) by {
            if k > 0 {
                assert(pieces[k] == path_pieces(rest)[k - 1]);
            }
        }
        assert(s =~= head + rest);
        lemma_without_separators_append(head, rest);
        lemma_without_separators_plain(head);
        assert(pieces[0] == head);
        assert(pieces.drop_first() =~= path_pieces(rest));
    }
}

/// Splitting a path joined from plain components gives the components back.
pub proof fn lemma_split_joined_path(parts: Seq<Seq<char>>)
    requires
        forall|k: int| 0 <= k < parts.len() ==> plain_component(#[trigger] parts[k]),
    ensures
        path_pieces(joined(parts)) == parts,
    decreases parts.len(),
{
    if parts.len() == 0 {
        assert(path_pieces(joined(parts)) =~= parts);
    } else if parts.len() == 1 {
        lemma_pieces_plain(parts[0]);
        assert(seq![parts[0]] =~= parts);
    } else {
        let init = parts.drop_last();
        assert(forall|k: int| 0 <= k < init.len() ==> #[trigger] init[k] == parts[k]);
        lemma_split_joined_path(init);
        lemma_pieces_around_separator(joined(init), parts.last());
        lemma_pieces_plain(parts.last());
        assert(init + seq![parts.last()] =~= parts);
    }
}

/// The text `s` with leading and trailing white space removed, as
/// `str::trim` does it.
pub uninterp spec fn trimmed(s: Seq<char>) -> Seq<char>;

/// The text `s` in upper case, as `str::to_uppercase` does it.
pub uninterp spec fn uppercased(s: Seq<char>) -> Seq<char>;

/// Whether `char::is_alphabetic` holds of `c`.
pub uninterp spec fn alphabetic(c: char) -> bool;

/// Calls `str::trim`. Trusted: the result is `trimmed` of the input (the
/// Unicode White_Space rules are not restated here).
#[verifier::external_body]
pub(crate) fn trim_str(s: &str) -> (t: &str)
    ensures
        t@ == trimmed(s@),
{
    s.trim()
}

/// Calls `str::to_uppercase`. Trusted: the result is `uppercased` of the
/// input (the Unicode case mapping is not restated here).
#[verifier::external_body]
fn uppercase_str(s: &str) -> (u: String)
    ensures
        u@ == uppercased(s@),
{
    s.to_uppercase()
}

/// Calls `char::is_alphabetic`. Trusted: the result is `alphabetic` of the
/// character (the Unicode Alphabetic property is not restated here).
#[verifier::external_body]
fn is_alphabetic_char(c: char) -> (b: bool)
    ensures
        b == alphabetic(c),
{
    c.is_alphabetic()
}

/// Position of the first alphabetic character of `s`, or its length.
pub open spec fn first_alphabetic(s: Seq<char>) -> nat
    decreases s.len(),
{
    if s.len() == 0 || alphabetic(s[0]) {
        0
    } else {
        1 + first_alphabetic(s.drop_first())
    }
}

pub open spec fn is_ascii_digit(c: char) -> bool {
    '0' <= c <= '9'
}

/// The number that a string of decimal digits denotes.
pub open spec fn digits_value(s: Seq<char>) -> nat
    decreases s.len(),
{
    if s.len() == 0 {
        0
    } else {
        digits_value(s.drop_last()) * 10 + ((s.last() as int) - ('0' as int)) as nat
    }
}

/// `s` without one leading '+'.
pub open spec fn without_plus(s: Seq<char>) -> Seq<char> {
    if s.len() > 0 && s[0] == '+' {
        s.drop_first()
    } else {
        s
    }
}

/// Every character of `t` is a decimal digit.
pub open spec fn all_digits(t: Seq<char>) -> bool {
    forall|k: int| 0 <= k < t.len() ==> #[trigger] is_ascii_digit(t[k])
}

/// What `u64::from_str` accepts: an optional '+', then one or more decimal
/// digits whose value fits in a `u64`.
pub open spec fn u64_text(s: Seq<char>) -> Option<u64> {
    let t = without_plus(s);
    if t.len() > 0 && all_digits(t) && digits_value(t) <= u64::MAX {
        Some(digits_value(t) as u64)
    } else {
        None
    }
}

proof fn lemma_digits_value_step(s: Seq<char>, k: int)
    requires
        0 <= k < s.len(),
        is_ascii_digit(s[k]),
    ensures
        digits_value(s.take(k + 1)) == digits_value(s.take(k)) * 10 + ((s[k] as int) - ('0' as int)),
{
    assert(s.take(k + 1).drop_last() =~= s.take(k));
    assert(s.take(k + 1).last() == s[k]);
}

/// Parses a decimal `u64` the way `u64::from_str` does.
pub fn parse_u64(s: &str) -> (value: Option<u64>)
    ensures
        value == u64_text(s@),
{
    let len = s.unicode_len();
    let mut start: usize = 0;
    if len > 0 && s.get_char(0) == '+' {
        start = 1;
    }
    let ghost t = without_plus(s@);
    if start == len {
        return None;
    }
    let mut value: u64 = 0;
    let mut i: usize = start;
    while i < len
        invariant
            len == s@.len(),
            start <= i <= len,
            start == 0 || start == 1,
            t == s@.skip(start as int),
            t == without_plus(s@),
            value == digits_value(t.take(i - start)),
            forall|k: int| 0 <= k < i - start ==> #[trigger] is_ascii_digit(t[k]),
        decreases len - i,
    {
        let c = s.get_char(i);
        if !('0' <= c && c <= '9') {
            proof {
                assert(t[i - start] == s@[i as int]);
                assert(!is_ascii_digit(t[i - start]));
                assert(!all_digits(t));
                assert(without_plus(s@) == t);
                assert(u64_text(s@) is None);
            }
            return None;
        }
        let d: u64 = (c as u64) - ('0' as u64);
        proof {
            assert(t[i - start] == s@[i as int]);
            lemma_digits_value_step(t, i - start);
        }
        if value > (u64::MAX - d) / 10 {
            proof {
                let bigger = digits_value(t.take(i - start + 1));
                assert(bigger > u64::MAX) by (nonlinear_arith)
                    requires
                        bigger == value * 10 + d,
                        value > (u64::MAX - d) / 10,
                        d <= 9,
                ;
                assert(t[i - start] == s@[i as int]);
                lemma_digits_value_prefix_bound(t, i - start + 1);
                assert(!(all_digits(t) && digits_value(t) <= u64::MAX));
                assert(without_plus(s@) == t);
                assert(u64_text(s@) is None);
            }
            return None;
        }
        value = value * 10 + d;
        i = i + 1;
    }
    assert(t.take(len - start) =~= t);
    Some(value)
}

/// A longer run of digits never has a smaller value.
proof fn lemma_digits_value_prefix_bound(s: Seq<char>, k: int)
    requires
        0 <= k <= s.len(),
        forall|j: int| 0 <= j < s.len() ==> #[trigger] is_ascii_digit(s[j]) || j >= k,
    ensures
        digits_value(s) >= digits_value(s.take(k)) || exists|j: int| 0 <= j < s.len() && !is_ascii_digit(s[j]),
    decreases s.len() - k,
{
    if k < s.len() {
        if is_ascii_digit(s[k]) {
            lemma_digits_value_step(s, k);
            lemma_digits_value_prefix_bound(s, k + 1);
        }
    } else {
        assert(s.take(k) =~= s);
    }
}

/// Multiplier of a size unit, upper case, as `parse_size` accepts it.
pub open spec fn unit_multiplier(u: Seq<char>) -> Option<u64> {
    if u == Seq::<char>::empty() || u == seq!['B'] {
        Some(1u64)
    } else if u == seq!['K'] || u == seq!['K', 'B'] || u == seq!['K', 'I', 'B'] {
        Some(1024u64)
    } else if u == seq!['M'] || u == seq!['M', 'B'] || u == seq!['M', 'I', 'B'] {
        Some(1048576u64)
    } else if u == seq!['G'] || u == seq!['G', 'B'] || u == seq!['G', 'I', 'B'] {
        Some(1073741824u64)
    } else if u == seq!['T'] || u == seq!['T', 'B'] || u == seq!['T', 'I', 'B'] {
        Some(1099511627776u64)
    } else {
        None
    }
}

/// The unit letters in order of size: bytes, then kibi-, mebi-, gibi- and
/// tebibytes.
pub open spec fn unit_letter(k: int) -> char {
    seq!['B', 'K', 'M', 'G', 'T'][k]
}

/// 1024 raised to the power `k`.
pub open spec fn kib_power(k: nat) -> nat
    decreases k,
{
    if k == 0 {
        1
    } else {
        1024 * kib_power((k - 1) as nat)
    }
}

/// Unit law: every unit that the error message lists is accepted, in its
/// one-, two- and three-letter forms, and the `k`-th unit letter (B, K, M,
/// G, T) multiplies by 1024 to the power `k`; no unit means bytes.
pub proof fn lemma_listed_units_accepted()
    ensures
        unit_multiplier(Seq::empty()) == Some(1u64),
        forall|k: int| 0 <= k < 5 ==> unit_multiplier(seq![#[trigger] unit_letter(k)]) == Some(kib_power(k as nat) as u64),
        forall|k: int|
            1 <= k < 5 ==> unit_multiplier(seq![#[trigger] unit_letter(k), 'B']) == Some(kib_power(k as nat) as u64)
                && unit_multiplier(seq![unit_letter(k), 'I', 'B']) == Some(kib_power(k as nat) as u64),
{
    reveal_with_fuel(kib_power, 5);
    assert(kib_power(0) == 1);
    assert(kib_power(1) == 1024);
    assert(kib_power(2) == 1048576);
    assert(kib_power(3) == 1073741824);
    assert(kib_power(4) == 1099511627776);
    assert forall|k: int| 0 <= k < 5 implies unit_multiplier(seq![#[trigger] unit_letter(k)]) == Some(
        kib_power(k as nat) as u64,
    ) by {
        let u = seq![unit_letter(k)];
        assert(u.len() == 1 && u[0] == unit_letter(k));
        assert(u != Seq::<char>::empty());
        assert(seq!['B'][0] == 'B' && seq!['K'][0] == 'K' && seq!['M'][0] == 'M' && seq!['G'][0] == 'G');
        if k == 0 {
            assert(u =~= seq!['B']);
        } else if k == 1 {
            assert(u =~= seq!['K']);
        } else if k == 2 {
            assert(u =~= seq!['M']);
        } else if k == 3 {
            assert(u =~= seq!['G']);
        } else {
            assert(u =~= seq!['T']);
        }
    }
    assert forall|k: int| 1 <= k < 5 implies unit_multiplier(seq![#[trigger] unit_letter(k), 'B']) == Some(
        kib_power(k as nat) as u64,
    ) && unit_multiplier(seq![unit_letter(k), 'I', 'B']) == Some(kib_power(k as nat) as u64) by {
        let u2 = seq![unit_letter(k), 'B'];
        let u3 = seq![unit_letter(k), 'I', 'B'];
        assert(u2.len() == 2 && u2[0] == unit_letter(k) && u2[1] == 'B');
        assert(u3.len() == 3 && u3[0] == unit_letter(k) && u3[1] == 'I' && u3[2] == 'B');
        assert(seq!['K', 'B'][0] == 'K' && seq!['K', 'B'][1] == 'B');
        assert(seq!['K', 'I', 'B'][0] == 'K' && seq!['K', 'I', 'B'][1] == 'I' && seq!['K', 'I', 'B'][2] == 'B');
        assert(seq!['M', 'B'][0] == 'M' && seq!['M', 'B'][1] == 'B');
        assert(seq!['M', 'I', 'B'][0] == 'M' && seq!['M', 'I', 'B'][1] == 'I' && seq!['M', 'I', 'B'][2] == 'B');
        assert(seq!['G', 'B'][0] == 'G' && seq!['G', 'B'][1] == 'B');
        assert(seq!['G', 'I', 'B'][0] == 'G' && seq!['G', 'I', 'B'][1] == 'I' && seq!['G', 'I', 'B'][2] == 'B');
        assert(seq!['T', 'B'][0] == 'T' && seq!['T', 'B'][1] == 'B');
        assert(seq!['T', 'I', 'B'][0] == 'T' && seq!['T', 'I', 'B'][1] == 'I' && seq!['T', 'I', 'B'][2] == 'B');
        if k == 1 {
            assert(u2 =~= seq!['K', 'B']);
            assert(u3 =~= seq!['K', 'I', 'B']);
        } else if k == 2 {
            assert(u2 =~= seq!['M', 'B']);
            assert(u3 =~= seq!['M', 'I', 'B']);
        } else if k == 3 {
            assert(u2 =~= seq!['G', 'B']);
            assert(u3 =~= seq!['G', 'I', 'B']);
        } else {
            assert(u2 =~= seq!['T', 'B']);
            assert(u3 =~= seq!['T', 'I', 'B']);
        }
    }
}

/// Only the listed units are accepted: a unit with a multiplier is empty,
/// or a unit letter alone, or (but for B) a unit letter followed by "B" or
/// "IB".
pub proof fn lemma_only_listed_units(u: Seq<char>)
    requires
        unit_multiplier(u) is Some,
    ensures
        u.len() == 0 || (exists|k: int|
            0 <= k < 5 && (u == seq![#[trigger] unit_letter(k)] || (1 <= k && (u == seq![unit_letter(k), 'B'] || u
                == seq![unit_letter(k), 'I', 'B'])))),
{
    if u.len() > 0 {
        if u == seq!['B'] {
            assert(seq![unit_letter(0)] =~= seq!['B']);
        } else if u == seq!['K'] || u == seq!['K', 'B'] || u == seq!['K', 'I', 'B'] {
            assert(seq![unit_letter(1)] =~= seq!['K']);
            assert(seq![unit_letter(1), 'B'] =~= seq!['K', 'B']);
            assert(seq![unit_letter(1), 'I', 'B'] =~= seq!['K', 'I', 'B']);
        } else if u == seq!['M'] || u == seq!['M', 'B'] || u == seq!['M', 'I', 'B'] {
            assert(seq![unit_letter(2)] =~= seq!['M']);
            assert(seq![unit_letter(2), 'B'] =~= seq!['M', 'B']);
            assert(seq![unit_letter(2), 'I', 'B'] =~= seq!['M', 'I', 'B']);
        } else if u == seq!['G'] || u == seq!['G', 'B'] || u == seq!['G', 'I', 'B'] {
            assert(seq![unit_letter(3)] =~= seq!['G']);
            assert(seq![unit_letter(3), 'B'] =~= seq!['G', 'B']);
            assert(seq![unit_letter(3), 'I', 'B'] =~= seq!['G', 'I', 'B']);
        } else {
            assert(seq![unit_letter(4)] =~= seq!['T']);
            assert(seq![unit_letter(4), 'B'] =~= seq!['T', 'B']);
            assert(seq![unit_letter(4), 'I', 'B'] =~= seq!['T', 'I', 'B']);
        }
    }
}

/// Why a size could not be parsed.
#[derive(Debug)]
pub enum SizeParseError {
    /// Nothing but white space was given.
    Empty,
    /// The part before the unit is not a number; it is attached.
    InvalidNumber(String),
    /// The unit is not one of the known ones; it is attached.
    InvalidUnit(String),
}

/// What a size parse gives back, with text by its characters.
pub enum SizeParseOutcome {
    Parts(u64, u64),
    Empty,
    InvalidNumber(Seq<char>),
    InvalidUnit(Seq<char>),
}

/// The number and unit multiplier that `s` denotes, or why it denotes none:
/// `s` is trimmed and upper-cased, split before its first alphabetic
/// character into a number and a unit.
pub open spec fn size_outcome(s: Seq<char>) -> SizeParseOutcome {
    let t = uppercased(trimmed(s));
    let i = first_alphabetic(t) as int;
    if t.len() == 0 {
        SizeParseOutcome::Empty
    } else {
        match u64_text(t.take(i)) {
            None => SizeParseOutcome::InvalidNumber(t.take(i)),
            Some(n) => match unit_multiplier(t.skip(i)) {
                None => SizeParseOutcome::InvalidUnit(t.skip(i)),
                Some(m) => SizeParseOutcome::Parts(n, m),
            },
        }
    }
}

/// The result of `parse_size_parts` in terms of `size_outcome`.
pub open spec fn parts_result_is(r: Result<(u64, u64), SizeParseError>, o: SizeParseOutcome) -> bool {
    match (r, o) {
        (Ok((n, m)), SizeParseOutcome::Parts(n2, m2)) => n == n2 && m == m2,
        (Err(SizeParseError::Empty), SizeParseOutcome::Empty) => true,
        (Err(SizeParseError::InvalidNumber(t)), SizeParseOutcome::InvalidNumber(t2)) => t@ == t2,
        (Err(SizeParseError::InvalidUnit(t)), SizeParseOutcome::InvalidUnit(t2)) => t@ == t2,
        _ => false,
    }
}

/// The first `n` of the characters `a`, `b`, `c`.
pub open spec fn short_text(a: char, b: char, c: char, n: int) -> Seq<char> {
    seq![a, b, c].take(n)
}

fn str_is(s: &str, a: char, b: char, c: char, n: usize) -> (eq: bool)
    requires
        n <= 3,
    ensures
        eq == (s@ == short_text(a, b, c, n as int)),
{
    let ghost lit = short_text(a, b, c, n as int);
    let len = s.unicode_len();
    if len != n {
        return false;
    }
    if n > 0 && s.get_char(0) != a {
        return false;
    }
    if n > 1 && s.get_char(1) != b {
        return false;
    }
    if n > 2 && s.get_char(2) != c {
        return false;
    }
    assert(s@ =~= lit);
    true
}

fn unit_multiplier_of(u: &str) -> (m: Option<u64>)
    ensures
        m == unit_multiplier(u@),
{
    proof {
        assert(short_text(' ', ' ', ' ', 0) =~= Seq::<char>::empty());
        assert(short_text('B', ' ', ' ', 1) =~= seq!['B']);
        assert(short_text('K', ' ', ' ', 1) =~= seq!['K']);
        assert(short_text('K', 'B', ' ', 2) =~= seq!['K', 'B']);
        assert(short_text('K', 'I', 'B', 3) =~= seq!['K', 'I', 'B']);
        assert(short_text('M', ' ', ' ', 1) =~= seq!['M']);
        assert(short_text('M', 'B', ' ', 2) =~= seq!['M', 'B']);
        assert(short_text('M', 'I', 'B', 3) =~= seq!['M', 'I', 'B']);
        assert(short_text('G', ' ', ' ', 1) =~= seq!['G']);
        assert(short_text('G', 'B', ' ', 2) =~= seq!['G', 'B']);
        assert(short_text('G', 'I', 'B', 3) =~= seq!['G', 'I', 'B']);
        assert(short_text('T', ' ', ' ', 1) =~= seq!['T']);
        assert(short_text('T', 'B', ' ', 2) =~= seq!['T', 'B']);
        assert(short_text('T', 'I', 'B', 3) =~= seq!['T', 'I', 'B']);
    }
    if str_is(u, ' ', ' ', ' ', 0) || str_is(u, 'B', ' ', ' ', 1) {
        Some(1)
    } else if str_is(u, 'K', ' ', ' ', 1) || str_is(u, 'K', 'B', ' ', 2) || str_is(u, 'K', 'I', 'B', 3) {
        Some(1024)
    } else if str_is(u, 'M', ' ', ' ', 1) || str_is(u, 'M', 'B', ' ', 2) || str_is(u, 'M', 'I', 'B', 3) {
        Some(1048576)
    } else if str_is(u, 'G', ' ', ' ', 1) || str_is(u, 'G', 'B', ' ', 2) || str_is(u, 'G', 'I', 'B', 3) {
        Some(1073741824)
    } else if str_is(u, 'T', ' ', ' ', 1) || str_is(u, 'T', 'B', ' ', 2) || str_is(u, 'T', 'I', 'B', 3) {
        Some(1099511627776)
    } else {
        None
    }
}

/// Splits a size such as "500M" or " 1 gib" into its number and the
/// multiplier of its unit, or says why it cannot.
pub fn parse_size_parts(size_str: &str) -> (parts: Result<(u64, u64), SizeParseError>)
    ensures
        parts_result_is(parts, size_outcome(size_str@)),
{
    let upper = uppercase_str(trim_str(size_str));
    let ghost t = upper@;
    let text = upper.as_str();
    let len = text.unicode_len();
    if len == 0 {
        return Err(SizeParseError::Empty);
    }
    let mut i: usize = 0;
    assert(t.skip(0) =~= t);
    while i < len && !is_alphabetic_char(text.get_char(i))
        invariant
            t == text@,
            len == t.len(),
            0 <= i <= len,
            first_alphabetic(t) == i + first_alphabetic(t.skip(i as int)),
        decreases len - i,
    {
        assert(t.skip(i as int).drop_first() =~= t.skip(i + 1));
        i = i + 1;
    }
    proof {
        if i < len {
            assert(t.skip(i as int)[0] == t[i as int]);
        }
        assert(first_alphabetic(t.skip(i as int)) == 0);
    }
    let num_part = text.substring_char(0, i);
    let unit_part = text.substring_char(i, len);
    proof {
        assert(num_part@ =~= t.take(i as int));
        assert(unit_part@ =~= t.skip(i as int));
    }
    size_from_parts(num_part, unit_part)
}

/// Reads the number and the unit of a size already trimmed, upper-cased and
/// split before its first alphabetic character.
pub fn size_from_parts(num_part: &str, unit_part: &str) -> (parts: Result<(u64, u64), SizeParseError>)
    ensures
        match u64_text(num_part@) {
            None => parts matches Err(SizeParseError::InvalidNumber(t)) && t@ == num_part@,
            Some(n) => match unit_multiplier(unit_part@) {
                None => parts matches Err(SizeParseError::InvalidUnit(t)) && t@ == unit_part@,
                Some(m) => parts matches Ok((n2, m2)) && n2 == n && m2 == m,
            },
        },
{
    match parse_u64(num_part) {
        None => Err(SizeParseError::InvalidNumber(num_part.to_owned())),
        Some(num) => match unit_multiplier_of(unit_part) {
            None => Err(SizeParseError::InvalidUnit(unit_part.to_owned())),
            Some(m) => Ok((num, m)),
        },
    }
}

/// The size in bytes that `s` denotes, when it denotes one.
pub open spec fn size_fits(s: Seq<char>) -> bool {
    match size_outcome(s) {
        SizeParseOutcome::Parts(n, m) => n * m <= u64::MAX,
        _ => true,
    }
}

/// Parses a size such as "500M", "1G" or "1024" into bytes; units are B, K,
/// M, G and T, each also with "B" or "IB" after it, in either case.
pub fn parse_size(size_str: &str) -> (size: Result<u64, SizeParseError>)
    requires
        size_fits(size_str@),
    ensures
        match (size, size_outcome(size_str@)) {
            (Ok(v), SizeParseOutcome::Parts(n, m)) => v == n * m,
            (Err(SizeParseError::Empty), SizeParseOutcome::Empty) => true,
            (Err(SizeParseError::InvalidNumber(t)), SizeParseOutcome::InvalidNumber(t2)) => t@ == t2,
            (Err(SizeParseError::InvalidUnit(t)), SizeParseOutcome::InvalidUnit(t2)) => t@ == t2,
            _ => false,
        },
{
    match parse_size_parts(size_str) {
        Ok((n, m)) => Ok(n * m),
        Err(e) => Err(e),
    }
}

/// Parses a size as `parse_size` does, when its bytes fit in a `u64`;
/// `None` when the number times its unit does not fit.
pub fn try_parse_size(size_str: &str) -> (size: Option<Result<u64, SizeParseError>>)
    ensures
        size is None <==> !size_fits(size_str@),
        size matches Some(r) ==> match (r, size_outcome(size_str@)) {
            (Ok(v), SizeParseOutcome::Parts(n, m)) => v == n * m,
            (Err(SizeParseError::Empty), SizeParseOutcome::Empty) => true,
            (Err(SizeParseError::InvalidNumber(t)), SizeParseOutcome::InvalidNumber(t2)) => t@ == t2,
            (Err(SizeParseError::InvalidUnit(t)), SizeParseOutcome::InvalidUnit(t2)) => t@ == t2,
            _ => false,
        },
{
    match parse_size_parts(size_str) {
        Ok((n, m)) => {
            if m != 0 && n > u64::MAX / m {
                proof {
                    assert(n * m > u64::MAX) by (nonlinear_arith)
                        requires
                            m > 0,
                            n > u64::MAX / m,
                    ;
                }
                None
            } else {
                proof {
                    if m != 0 {
                        assert(n * m <= u64::MAX) by (nonlinear_arith)
                            requires
                                m > 0,
                                n <= u64::MAX / m,
                        ;
                    }
                }
                Some(parse_size(size_str))
            }
        },
        Err(_) => Some(parse_size(size_str)),
    }
}

impl SizeParseError {
    /// The message that the command line shows for this error.
    pub fn message(&self) -> (m: String)
        ensures
            match self {
                SizeParseError::Empty => m@ == "Size cannot be empty"@,
                SizeParseError::InvalidNumber(t) => m@ == "Invalid number: '"@ + t@ + "'"@,
                SizeParseError::InvalidUnit(t) => m@ == "Invalid unit: '"@ + t@
                    + "'. Valid units: B, K/KIB/KB, M/MIB/MB, G/GIB/GB, T/TIB/TB"@,
            },
    {
        match self {
            SizeParseError::Empty => String::from_str("Size cannot be empty"),
            SizeParseError::InvalidNumber(t) => {
                let mut m = String::from_str("Invalid number: '");
                m.append(t.as_str());
                m.append("'");
                m
            },
            SizeParseError::InvalidUnit(t) => {
                let mut m = String::from_str("Invalid unit: '");
                m.append(t.as_str());
                m.append("'. Valid units: B, K/KIB/KB, M/MIB/MB, G/GIB/GB, T/TIB/TB");
                m
            },
        }
    }
}

} // verus!
