//! Text helpers over characters: decimal numbers, splitting, and the parts of
//! a file path.
use vstd::prelude::*;

verus! {

/// `String::push`.
#[verifier::external_body]
pub(crate) fn string_push(s: &mut String, c: char)
    ensures
        final(s)@ == old(s)@.push(c),
{
    s.push(c);
}

/// The characters of a text.
pub fn chars_of(s: &str) -> (r: Vec<char>)
    ensures
        r@ == s@,
{
    let mut v: Vec<char> = Vec::new();
    for c in it: s.chars()
        invariant
            v@ == it.seq().subrange(0, it.index() as int),
            it.seq() == s@,
    {
        v.push(c);
        assert(v@ =~= it.seq().subrange(0, it.index() + 1));
    }
    v
}

/// Whether two texts are equal.
pub(crate) fn same_text(a: &str, b: &str) -> (r: bool)
    ensures
        r == (a@ == b@),
{
    let x = chars_of(a);
    let y = chars_of(b);
    if x.len() != y.len() {
        return false;
    }
    let mut i: usize = 0;
    while i < x.len()
        invariant
            i <= x@.len(),
            x@.len() == y@.len(),
            x@ == a@,
            y@ == b@,
            forall|k: int| 0 <= k < i ==> x@[k] == y@[k],
        decreases x@.len() - i,
    {
        if x[i] != y[i] {
            return false;
        }
        i = i + 1;
    }
    assert(x@ =~= y@);
    true
}

/// The text made of the given characters.
pub fn string_of(s: &[char]) -> (r: String)
    ensures
        r@ == s@,
{
    let mut out = String::new();
    let mut i: usize = 0;
    while i < s.len()
        invariant
            i <= s@.len(),
            out@ == s@.subrange(0, i as int),
        decreases s@.len() - i,
    {
        string_push(&mut out, s[i]);
        i = i + 1;
        assert(out@ =~= s@.subrange(0, i as int));
    }
    assert(s@.subrange(0, s@.len() as int) =~= s@);
    out
}

/// Appends the characters of `t` to `s`.
pub fn push_text(s: &mut String, t: &[char])
    ensures
        final(s)@ == old(s)@ + t@,
{
    let ghost start = s@;
    let mut i: usize = 0;
    while i < t.len()
        invariant
            i <= t@.len(),
            s@ == start + t@.subrange(0, i as int),
        decreases t@.len() - i,
    {
        string_push(s, t[i]);
        i = i + 1;
        assert(s@ =~= start + t@.subrange(0, i as int));
    }
    assert(t@.subrange(0, t@.len() as int) =~= t@);
}

pub open spec fn is_digit(c: char) -> bool {
    '0' <= c && c <= '9'
}

pub open spec fn digit_value(c: char) -> nat {
    (c as u32 - '0' as u32) as nat
}

pub open spec fn digit_char(d: nat) -> char {
    (('0' as u32) + d) as char
}

/// The value of a sequence of decimal digits.
pub open spec fn decimal_value(s: Seq<char>) -> nat
    decreases s.len(),
{
    if s.len() == 0 {
        0
    } else {
        decimal_value(s.drop_last()) * 10 + digit_value(s.last())
    }
}

/// The decimal text of `n`, without leading zeros.
pub open spec fn decimal(n: nat) -> Seq<char>
    decreases n,
{
    if n < 10 {
        seq![digit_char(n)]
    } else {
        decimal(n / 10).push(digit_char(n % 10))
    }
}

pub open spec fn all_digits(s: Seq<char>) -> bool {
    forall|i: int| 0 <= i < s.len() ==> #[trigger] is_digit(s[i])
}

/// What `str::parse::<usize>` gives: an optional `+` and at least one digit,
/// whose value fits.
pub open spec fn parse_usize_spec(s: Seq<char>) -> Option<usize> {
    let body = if s.len() > 0 && s[0] == '+' {
        s.drop_first()
    } else {
        s
    };
    if body.len() == 0 || !all_digits(body) || decimal_value(body) > usize::MAX {
        None
    } else {
        Some(decimal_value(body) as usize)
    }
}

pub proof fn lemma_digit(d: nat)
    requires
        d < 10,
    ensures
        is_digit(digit_char(d)),
        digit_value(digit_char(d)) == d,
        digit_char(d) != '+' && digit_char(d) != '.' && digit_char(d) != '_' && digit_char(d) != '/',
{
    assert(('0' as u32) == 48);
    assert((48 + d) as char as u32 == 48 + d);
}

pub proof fn lemma_decimal(n: nat)
    ensures
        decimal(n).len() > 0,
        all_digits(decimal(n)),
        decimal_value(decimal(n)) == n,
        decimal(n)[0] != '+',
        forall|i: int| 0 <= i < decimal(n).len() ==> decimal(n)[i] != '.' && decimal(n)[i] != '_' && decimal(n)[i] != '/',
    decreases n,
{
    if n >= 10 {
        lemma_decimal(n / 10);
        lemma_digit(n % 10);
        assert(decimal(n).drop_last() =~= decimal(n / 10));
        assert(decimal(n)[0] == decimal(n / 10)[0]);
        assert(n / 10 * 10 + n % 10 == n);
        assert(decimal_value(decimal(n)) == decimal_value(decimal(n).drop_last()) * 10 + digit_value(
            decimal(n).last(),
        ));
        assert(decimal_value(decimal(n).drop_last()) == n / 10);
        assert(digit_value(decimal(n).last()) == n % 10);
        assert forall|i: int| 0 <= i < decimal(n).len() implies #[trigger] is_digit(decimal(n)[i]) by {
            if i < decimal(n).len() - 1 {
                assert(decimal(n)[i] == decimal(n / 10)[i]);
            }
        }
        assert forall|i: int| 0 <= i < decimal(n).len() implies decimal(n)[i] != '.' && decimal(n)[i] != '_'
            && decimal(n)[i] != '/' by {
            if i < decimal(n).len() - 1 {
                assert(decimal(n)[i] == decimal(n / 10)[i]);
            }
        }
    } else {
        lemma_digit(n);
        assert(decimal(n).drop_last() =~= Seq::<char>::empty());
        assert(decimal_value(decimal(n)) == decimal_value(decimal(n).drop_last()) * 10 + digit_value(
            decimal(n).last(),
        ));
        assert(decimal_value(Seq::<char>::empty()) == 0);
    }
}

/// Parses a decimal `usize` as `str::parse` does.
pub fn parse_usize(s: &[char]) -> (r: Option<usize>)
    ensures
        r == parse_usize_spec(s@),
{
    let start: usize = if s.len() > 0 && s[0] == '+' {
        1
    } else {
        0
    };
    let ghost body = if s@.len() > 0 && s@[0] == '+' {
        s@.drop_first()
    } else {
        s@
    };
    assert(body =~= s@.subrange(start as int, s@.len() as int));
    if start >= s.len() {
        return None;
    }
    let mut value: usize = 0;
    let mut i: usize = start;
    while i < s.len()
        invariant
            start <= i <= s@.len(),
            body == s@.subrange(start as int, s@.len() as int),
            body == (if s@.len() > 0 && s@[0] == '+' {
                s@.drop_first()
            } else {
                s@
            }),
            all_digits(s@.subrange(start as int, i as int)),
            value == decimal_value(s@.subrange(start as int, i as int)),
        decreases s@.len() - i,
    {
        let c = s[i];
        if !('0' <= c && c <= '9') {
            assert(body[i - start] == c);
            assert(!is_digit(body[i - start]));
            return None;
        }
        let d = (c as u32 - '0' as u32) as usize;
        assert(s@.subrange(start as int, i + 1).drop_last() =~= s@.subrange(start as int, i as int));
        if value > (usize::MAX - d) / 10 {
            proof {
                assert(s@.subrange(start as int, i + 1) =~= body.subrange(0, i - start + 1));
                assert(decimal_value(s@.subrange(start as int, i + 1)) == value * 10 + d) by {
                    assert(s@.subrange(start as int, i + 1).last() == c);
                }
                assert(value * 10 + d > usize::MAX) by (nonlinear_arith)
                    requires
                        value > (usize::MAX - d) / 10,
                        d <= 9,
                ;
                if all_digits(body) {
                    lemma_decimal_prefix_bound(body, i - start + 1, usize::MAX as nat);
                }
            }
            return None;
        }
        proof {
            assert(value * 10 + d <= usize::MAX) by (nonlinear_arith)
                requires
                    value <= (usize::MAX - d) / 10,
                    d <= 9,
            ;
        }
        value = value * 10 + d;
        i = i + 1;
        assert(all_digits(s@.subrange(start as int, i as int)));
    }
    assert(s@.subrange(start as int, s@.len() as int) =~= body);
    Some(value)
}

/// A prefix of a digit string has no larger value.
pub proof fn lemma_decimal_prefix_bound(s: Seq<char>, k: int, bound: nat)
    requires
        0 <= k <= s.len(),
        all_digits(s),
        decimal_value(s.subrange(0, k)) > bound,
    ensures
        decimal_value(s) > bound,
    decreases s.len() - k,
{
    if k < s.len() {
        let t = s.subrange(0, k + 1);
        assert(t.drop_last() =~= s.subrange(0, k));
        assert(is_digit(s[k]));
        lemma_decimal_prefix_bound(s, k + 1, bound);
    } else {
        assert(s.subrange(0, k) =~= s);
    }
}

/// The decimal text of `n`.
pub fn usize_to_decimal(n: usize) -> (r: Vec<char>)
    ensures
        r@ == decimal(n as nat),
    decreases n,
{
    if n < 10 {
        let c = char_of_digit(n as u32);
        let mut v: Vec<char> = Vec::new();
        v.push(c);
        assert(v@ =~= decimal(n as nat));
        v
    } else {
        let mut v = usize_to_decimal(n / 10);
        v.push(char_of_digit((n % 10) as u32));
        v
    }
}

fn char_of_digit(d: u32) -> (c: char)
    requires
        d < 10,
    ensures
        c == digit_char(d as nat),
{
    if d == 0 { '0' }
    else if d == 1 { '1' }
    else if d == 2 { '2' }
    else if d == 3 { '3' }
    else if d == 4 { '4' }
    else if d == 5 { '5' }
    else if d == 6 { '6' }
    else if d == 7 { '7' }
    else if d == 8 { '8' }
    else { '9' }
}

/// `s` cut at every `sep`, as `str::split` does: always at least one part.
pub open spec fn split_spec(s: Seq<char>, sep: char) -> Seq<Seq<char>>
    decreases s.len(),
{
    if s.len() == 0 {
        seq![Seq::empty()]
    } else {
        let p = split_spec(s.drop_last(), sep);
        if s.last() == sep {
            p.push(Seq::empty())
        } else {
            p.update(p.len() - 1, p.last().push(s.last()))
        }
    }
}

pub proof fn lemma_split_nonempty(s: Seq<char>, sep: char)
    ensures
        split_spec(s, sep).len() >= 1,
    decreases s.len(),
{
    if s.len() > 0 {
        lemma_split_nonempty(s.drop_last(), sep);
    }
}

/// Splits `s` at every `sep`.
pub fn split_chars(s: &[char], sep: char) -> (r: Vec<Vec<char>>)
    ensures
        r@.len() == split_spec(s@, sep).len(),
        forall|i: int| 0 <= i < r@.len() ==> #[trigger] r@[i]@ == split_spec(s@, sep)[i],
{
    let mut parts: Vec<Vec<char>> = Vec::new();
    parts.push(Vec::new());
    let mut i: usize = 0;
    assert(s@.subrange(0, 0) =~= Seq::<char>::empty());
    while i < s.len()
        invariant
            i <= s@.len(),
            parts@.len() == split_spec(s@.subrange(0, i as int), sep).len(),
            parts@.len() >= 1,
            forall|k: int| 0 <= k < parts@.len() ==> #[trigger] parts@[k]@ == split_spec(
                s@.subrange(0, i as int),
                sep,
            )[k],
        decreases s@.len() - i,
    {
        let c = s[i];
        let ghost prev = split_spec(s@.subrange(0, i as int), sep);
        assert(s@.subrange(0, i + 1).drop_last() =~= s@.subrange(0, i as int));
        if c == sep {
            parts.push(Vec::new());
        } else {
            let last = parts.len() - 1;
            let mut tail = parts.pop().unwrap();
            tail.push(c);
            parts.push(tail);
            proof {
                assert forall|k: int| 0 <= k < parts@.len() implies #[trigger] parts@[k]@ == split_spec(
                    s@.subrange(0, i + 1),
                    sep,
                )[k] by {
                    if k < last {
                        assert(parts@[k]@ == prev[k]);
                    }
                }
            }
        }
        i = i + 1;
    }
    assert(s@.subrange(0, s@.len() as int) =~= s@);
    parts
}

/// Index of the last `c` in `s`, or -1.
pub open spec fn last_index_of(s: Seq<char>, c: char) -> int
    decreases s.len(),
{
    if s.len() == 0 {
        -1
    } else if s.last() == c {
        s.len() - 1
    } else {
        last_index_of(s.drop_last(), c)
    }
}

/// Index of the first `c` in `s`, or its length.
pub open spec fn first_index_of(s: Seq<char>, c: char) -> int
    decreases s.len(),
{
    if s.len() == 0 {
        0
    } else if first_index_of(s.drop_last(), c) < s.len() - 1 {
        first_index_of(s.drop_last(), c)
    } else if s.last() == c {
        s.len() - 1
    } else {
        s.len() as int
    }
}

pub proof fn lemma_last_index_of(s: Seq<char>, c: char)
    ensures
        -1 <= last_index_of(s, c) < s.len(),
        last_index_of(s, c) >= 0 ==> s[last_index_of(s, c)] == c,
        forall|i: int| last_index_of(s, c) < i < s.len() ==> s[i] != c,
    decreases s.len(),
{
    if s.len() > 0 {
        lemma_last_index_of(s.drop_last(), c);
        assert forall|i: int| last_index_of(s, c) < i < s.len() implies s[i] != c by {
            if i < s.len() - 1 {
                assert(s.drop_last()[i] == s[i]);
            }
        }
    }
}

pub proof fn lemma_first_index_of(s: Seq<char>, c: char)
    ensures
        0 <= first_index_of(s, c) <= s.len(),
        first_index_of(s, c) < s.len() ==> s[first_index_of(s, c)] == c,
        forall|i: int| 0 <= i < first_index_of(s, c) ==> s[i] != c,
    decreases s.len(),
{
    if s.len() > 0 {
        lemma_first_index_of(s.drop_last(), c);
        assert forall|i: int| 0 <= i < first_index_of(s, c) implies s[i] != c by {
            if i < s.len() - 1 {
                assert(s.drop_last()[i] == s[i]);
            }
        }
    }
}

/// The last component of a path: what follows its last `/`. A path that ends
/// with `/`, or whose last component is `.` or `..`, has none.
pub open spec fn file_name_spec(p: Seq<char>) -> Option<Seq<char>> {
    let name = p.subrange(last_index_of(p, '/') + 1, p.len() as int);
    if name.len() == 0 || name == seq!['.'] || name == seq!['.', '.'] {
        None
    } else {
        Some(name)
    }
}

/// The last component of a path.
pub fn file_name(p: &[char]) -> (r: Option<Vec<char>>)
    ensures
        match r {
            Some(v) => file_name_spec(p@) == Some(v@),
            None => file_name_spec(p@) is None,
        },
{
    proof {
        lemma_last_index_of(p@, '/');
    }
    let mut start: usize = p.len();
    while start > 0 && p[start - 1] != '/'
        invariant
            start <= p@.len(),
            forall|i: int| start <= i < p@.len() ==> p@[i] != '/',
            last_index_of(p@, '/') < start,
            last_index_of(p@, '/') >= 0 ==> p@[last_index_of(p@, '/')] == '/',
        decreases start,
    {
        start = start - 1;
    }
    proof {
        if start > 0 {
            assert(p@[start - 1] == '/');
            assert(last_index_of(p@, '/') >= start - 1);
        } else {
            assert(last_index_of(p@, '/') == -1) by {
                if last_index_of(p@, '/') >= 0 {
                    assert(p@[last_index_of(p@, '/')] == '/');
                }
            }
        }
    }
    let name = crate::text::copy_chars(&p[start..p.len()]);
    let n = name.len();
    if n == 0 || (n == 1 && name[0] == '.') || (n == 2 && name[0] == '.' && name[1] == '.') {
        proof {
            if n == 1 {
                assert(name@ =~= seq!['.']);
            }
            if n == 2 {
                assert(name@ =~= seq!['.', '.']);
            }
        }
        None
    } else {
        proof {
            if name@ == seq!['.'] {
                assert(name@[0] == '.');
            }
            if name@ == seq!['.', '.'] {
                assert(name@[0] == '.' && name@[1] == '.');
            }
        }
        Some(name)
    }
}

/// A copy of characters.
pub fn copy_chars(s: &[char]) -> (r: Vec<char>)
    ensures
        r@ == s@,
{
    let mut v: Vec<char> = Vec::new();
    let mut i: usize = 0;
    while i < s.len()
        invariant
            i <= s@.len(),
            v@ == s@.subrange(0, i as int),
        decreases s@.len() - i,
    {
        v.push(s[i]);
        i = i + 1;
        assert(v@ =~= s@.subrange(0, i as int));
    }
    assert(s@.subrange(0, s@.len() as int) =~= s@);
    v
}

/// What comes before the first `.` of a text, or all of it.
pub open spec fn stem_spec(s: Seq<char>) -> Seq<char> {
    s.subrange(0, first_index_of(s, '.'))
}

/// What comes before the first `.`.
pub fn stem(s: &[char]) -> (r: Vec<char>)
    ensures
        r@ == stem_spec(s@),
{
    proof {
        lemma_first_index_of(s@, '.');
    }
    let mut i: usize = 0;
    while i < s.len() && s[i] != '.'
        invariant
            i <= s@.len(),
            forall|k: int| 0 <= k < i ==> s@[k] != '.',
            i <= first_index_of(s@, '.'),
            first_index_of(s@, '.') <= s@.len(),
            first_index_of(s@, '.') < s@.len() ==> s@[first_index_of(s@, '.')] == '.',
        decreases s@.len() - i,
    {
        i = i + 1;
    }
    proof {
        if i < s.len() {
            assert(first_index_of(s@, '.') <= i) by {
                if first_index_of(s@, '.') > i {
                    assert(s@[i as int] != '.');
                }
            }
        }
    }
    copy_chars(&s[0..i])
}

} // verus!

verus! {

/// Whether `c` occurs in `s`.
pub open spec fn has_char(s: Seq<char>, c: char) -> bool {
    exists|i: int| 0 <= i < s.len() && s[i] == c
}

pub proof fn lemma_split_extend(x: Seq<char>, y: Seq<char>, sep: char)
    requires
        !has_char(y, sep),
    ensures
        split_spec(x + y, sep) == split_spec(x, sep).update(
            split_spec(x, sep).len() - 1,
            split_spec(x, sep).last() + y,
        ),
        split_spec(x + y, sep).len() == split_spec(x, sep).len(),
    decreases y.len(),
{
    lemma_split_nonempty(x, sep);
    if y.len() == 0 {
        assert(x + y =~= x);
        assert(split_spec(x, sep).last() + y =~= split_spec(x, sep).last());
        assert(split_spec(x, sep).update(split_spec(x, sep).len() - 1, split_spec(x, sep).last())
            =~= split_spec(x, sep));
    } else {
        let y2 = y.drop_last();
        assert(!has_char(y2, sep)) by {
            if has_char(y2, sep) {
                let i = choose|i: int| 0 <= i < y2.len() && y2[i] == sep;
                assert(y[i] == sep);
            }
        }
        lemma_split_extend(x, y2, sep);
        assert((x + y).drop_last() =~= x + y2);
        assert(y.last() != sep) by {
            assert(y[y.len() - 1] == y.last());
        }
        let p = split_spec(x, sep);
        assert(split_spec(x + y, sep) =~= p.update(p.len() - 1, p.last() + y)) by {
            assert(p.last() + y2 + seq![y.last()] =~= p.last() + y);
            assert((p.last() + y2).push(y.last()) =~= p.last() + y);
        }
    }
}

pub proof fn lemma_split_has_sep(x: Seq<char>, sep: char)
    requires
        has_char(x, sep),
    ensures
        split_spec(x, sep).len() >= 2,
    decreases x.len(),
{
    lemma_split_nonempty(x.drop_last(), sep);
    if x.last() != sep {
        let i = choose|i: int| 0 <= i < x.len() && x[i] == sep;
        assert(i < x.len() - 1);
        assert(x.drop_last()[i] == sep);
        lemma_split_has_sep(x.drop_last(), sep);
    }
}

pub proof fn lemma_last_index_extend(a: Seq<char>, b: Seq<char>, c: char)
    requires
        !has_char(b, c),
    ensures
        last_index_of(a + b, c) == last_index_of(a, c),
    decreases b.len(),
{
    if b.len() == 0 {
        assert(a + b =~= a);
    } else {
        assert((a + b).drop_last() =~= a + b.drop_last());
        assert(b.last() != c) by {
            assert(b[b.len() - 1] == b.last());
        }
        assert(!has_char(b.drop_last(), c)) by {
            if has_char(b.drop_last(), c) {
                let i = choose|i: int| 0 <= i < b.drop_last().len() && b.drop_last()[i] == c;
                assert(b[i] == c);
            }
        }
        lemma_last_index_extend(a, b.drop_last(), c);
    }
}

pub proof fn lemma_first_index_at(a: Seq<char>, b: Seq<char>, c: char)
    requires
        !has_char(a, c),
        b.len() > 0,
        b[0] == c,
    ensures
        first_index_of(a + b, c) == a.len(),
{
    lemma_first_index_of(a + b, c);
    let f = first_index_of(a + b, c);
    if f < a.len() {
        assert((a + b)[f] == a[f]);
    }
    if f > a.len() {
        assert((a + b)[a.len() as int] == c);
    }
}

/// `path` joined with `name` as `Path::join` does: an absolute `name`
/// replaces the path; otherwise a `/` separates them where needed.
pub open spec fn join_spec(folder: Seq<char>, name: Seq<char>) -> Seq<char> {
    if name.len() > 0 && name[0] == '/' {
        name
    } else if folder.len() == 0 || folder.last() == '/' {
        folder + name
    } else {
        folder + seq!['/'] + name
    }
}

/// Joins a folder and a file name.
pub fn join_path(folder: &str, name: &str) -> (r: String)
    ensures
        r@ == join_spec(folder@, name@),
{
    let f = chars_of(folder);
    let n = chars_of(name);
    let mut out = string_of(f.as_slice());
    if n.len() > 0 && n[0] == '/' {
        return string_of(n.as_slice());
    }
    if f.len() > 0 && f[f.len() - 1] != '/' {
        string_push(&mut out, '/');
    }
    push_text(&mut out, n.as_slice());
    proof {
        if f@.len() > 0 {
            assert(f@.last() == f@[f@.len() - 1]);
        }
    }
    out
}

} // verus!
