//! Character-level text utilities: lexicographic ordering, whitespace
//! trimming, splitting a path string into `/`-separated components, and
//! joining components back together.

use vstd::prelude::*;

verus! {

/// The character-sequence views of a sequence of strings.
pub open spec fn strs_view(parts: Seq<String>) -> Seq<Seq<char>> {
    parts.map_values(|p: String| p@)
}

/// Strict lexicographic (code-point) order on character sequences.
pub open spec fn str_lt(a: Seq<char>, b: Seq<char>) -> bool
    decreases a.len(),
{
    if b.len() == 0 {
        false
    } else if a.len() == 0 {
        true
    } else if a[0] == b[0] {
        str_lt(a.skip(1), b.skip(1))
    } else {
        a[0] < b[0]
    }
}

/// Two sequences that neither precede each other are equal.
pub proof fn lemma_str_lt_connex(a: Seq<char>, b: Seq<char>)
    requires
        !str_lt(a, b),
        !str_lt(b, a),
    ensures
        a == b,
    decreases a.len(),
{
    if b.len() == 0 {
        if a.len() == 0 {
            assert(a =~= b);
        } else {
            assert(str_lt(b, a));
        }
    } else if a.len() == 0 {
        assert(str_lt(a, b));
    } else if a[0] == b[0] {
        lemma_str_lt_connex(a.skip(1), b.skip(1));
        assert(a =~= seq![a[0]] + a.skip(1));
        assert(b =~= seq![b[0]] + b.skip(1));
    } else {
        assert(!(a[0] < b[0]) && !(b[0] < a[0]));
        assert(a[0] == b[0]);
    }
}

/// Lexicographic order is transitive.
pub proof fn lemma_str_lt_trans(a: Seq<char>, b: Seq<char>, c: Seq<char>)
    requires
        str_lt(a, b),
        str_lt(b, c),
    ensures
        str_lt(a, c),
    decreases a.len(),
{
    if c.len() == 0 {
        assert(!str_lt(b, c));
    } else if a.len() == 0 {
    } else if b.len() == 0 {
        assert(!str_lt(a, b));
    } else {
        if a[0] == b[0] && b[0] == c[0] {
            lemma_str_lt_trans(a.skip(1), b.skip(1), c.skip(1));
        }
    }
}

/// Decides `str_lt` on two string slices.
pub fn text_lt(a: &str, b: &str) -> (r: bool)
    ensures
        r == str_lt(a@, b@),
{
    let alen = a.unicode_len();
    let blen = b.unicode_len();
    let mut i: usize = 0;
    proof {
        assert(a@.skip(0) =~= a@);
        assert(b@.skip(0) =~= b@);
    }
    loop
        invariant
            i <= alen,
            i <= blen,
            alen == a@.len(),
            blen == b@.len(),
            str_lt(a@, b@) == str_lt(a@.skip(i as int), b@.skip(i as int)),
        decreases alen - i,
    {
        if i == blen {
            return false;
        }
        if i == alen {
            return true;
        }
        let ca = a.get_char(i);
        let cb = b.get_char(i);
        if ca == cb {
            proof {
                assert(a@.skip(i as int).skip(1) =~= a@.skip(i + 1));
                assert(b@.skip(i as int).skip(1) =~= b@.skip(i + 1));
            }
            i = i + 1;
        } else {
            return ca < cb;
        }
    }
}

/// Decides view equality of two string slices.
pub fn text_eq(a: &str, b: &str) -> (r: bool)
    ensures
        r == (a@ == b@),
{
    let alen = a.unicode_len();
    let blen = b.unicode_len();
    if alen != blen {
        return false;
    }
    let mut i: usize = 0;
    while i < alen
        invariant
            i <= alen,
            alen == a@.len(),
            alen == b@.len(),
            forall|j: int| 0 <= j < i ==> a@[j] == b@[j],
        decreases alen - i,
    {
        if a.get_char(i) != b.get_char(i) {
            return false;
        }
        i = i + 1;
    }
    proof {
        assert(a@ =~= b@);
    }
    true
}

/// Splits a character sequence on `/`, discarding empty segments; `cur` is
/// the partial segment accumulated so far.
pub open spec fn split_acc(s: Seq<char>, cur: Seq<char>) -> Seq<Seq<char>>
    decreases s.len(),
{
    if s.len() == 0 {
        if cur.len() > 0 {
            seq![cur]
        } else {
            seq![]
        }
    } else if s[0] == '/' {
        if cur.len() > 0 {
            seq![cur] + split_acc(s.skip(1), seq![])
        } else {
            split_acc(s.skip(1), seq![])
        }
    } else {
        split_acc(s.skip(1), cur.push(s[0]))
    }
}

/// The `/`-separated components of a path string, with empty segments
/// discarded.
pub open spec fn components_of(s: Seq<char>) -> Seq<Seq<char>> {
    split_acc(s, seq![])
}

/// Splitting distributes over a separator placed between two strings.
pub proof fn lemma_split_acc_concat(s: Seq<char>, t: Seq<char>, cur: Seq<char>)
    ensures
        split_acc(s + seq!['/'] + t, cur) == split_acc(s, cur) + split_acc(t, seq![]),
    decreases s.len(),
{
    let full = s + seq!['/'] + t;
    if s.len() == 0 {
        assert(full[0] == '/');
        assert(full.skip(1) =~= t);
        if cur.len() > 0 {
            assert(split_acc(full, cur) == seq![cur] + split_acc(t, seq![]));
            assert(split_acc(s, cur) == seq![cur]);
        } else {
            assert(split_acc(full, cur) == split_acc(t, seq![]));
            assert(split_acc(s, cur) =~= Seq::<Seq<char>>::empty());
            assert(split_acc(s, cur) + split_acc(t, seq![]) =~= split_acc(t, seq![]));
        }
    } else {
        assert(full[0] == s[0]);
        assert(full.skip(1) =~= s.skip(1) + seq!['/'] + t);
        if s[0] == '/' {
            lemma_split_acc_concat(s.skip(1), t, seq![]);
            if cur.len() > 0 {
                assert(split_acc(full, cur) == seq![cur] + split_acc(
                    s.skip(1) + seq!['/'] + t,
                    seq![],
                ));
                assert(seq![cur] + (split_acc(s.skip(1), seq![]) + split_acc(t, seq![])) =~= (
                seq![cur] + split_acc(s.skip(1), seq![])) + split_acc(t, seq![]));
            }
        } else {
            lemma_split_acc_concat(s.skip(1), t, cur.push(s[0]));
        }
    }
}

/// The components of two strings joined by `/` are the components of the
/// one followed by the components of the other.
pub proof fn lemma_components_concat(s: Seq<char>, t: Seq<char>)
    ensures
        components_of(s + seq!['/'] + t) == components_of(s) + components_of(t),
{
    lemma_split_acc_concat(s, t, seq![]);
}

/// Splits a path string into its `/`-separated components, discarding empty
/// segments.
pub fn split_components(s: &str) -> (r: Vec<String>)
    ensures
        strs_view(r@) == components_of(s@),
{
    let len = s.unicode_len();
    let mut r: Vec<String> = Vec::new();
    let mut start: usize = 0;
    let mut i: usize = 0;
    proof {
        assert(s@.skip(0) =~= s@);
        assert(s@.subrange(0, 0) =~= Seq::<char>::empty());
        assert(strs_view(r@) =~= Seq::<Seq<char>>::empty());
        assert(strs_view(r@) + split_acc(s@, seq![]) =~= split_acc(s@, seq![]));
    }
    while i < len
        invariant
            start <= i <= len,
            len == s@.len(),
            forall|j: int| start <= j < i ==> s@[j] != '/',
            components_of(s@) == strs_view(r@) + split_acc(
                s@.skip(i as int),
                s@.subrange(start as int, i as int),
            ),
        decreases len - i,
    {
        let ghost cur = s@.subrange(start as int, i as int);
        let c = s.get_char(i);
        if c == '/' {
            if i > start {
                let comp = s.substring_char(start, i).to_owned();
                proof {
                    assert(s@.skip(i as int)[0] == '/');
                    assert(s@.skip(i as int).skip(1) =~= s@.skip(i + 1));
                    assert(split_acc(s@.skip(i as int), cur) == seq![cur] + split_acc(
                        s@.skip(i + 1),
                        seq![],
                    ));
                    assert(strs_view(r@.push(comp)) =~= strs_view(r@) + seq![cur]);
                }
                r.push(comp);
            } else {
                proof {
                    assert(s@.skip(i as int)[0] == '/');
                    assert(s@.skip(i as int).skip(1) =~= s@.skip(i + 1));
                    assert(cur =~= Seq::<char>::empty());
                }
            }
            start = i + 1;
            proof {
                assert(s@.subrange(start as int, i + 1) =~= Seq::<char>::empty());
            }
        } else {
            proof {
                assert(s@.skip(i as int)[0] != '/');
                assert(s@.skip(i as int).skip(1) =~= s@.skip(i + 1));
                assert(cur.push(s@[i as int]) =~= s@.subrange(start as int, i + 1));
            }
        }
        i = i + 1;
    }
    let ghost cur = s@.subrange(start as int, len as int);
    if start < len {
        let comp = s.substring_char(start, len).to_owned();
        proof {
            assert(s@.skip(len as int).len() == 0);
            assert(split_acc(s@.skip(len as int), cur) == seq![cur]);
            assert(strs_view(r@.push(comp)) =~= strs_view(r@) + seq![cur]);
        }
        r.push(comp);
    } else {
        proof {
            assert(s@.skip(len as int).len() == 0);
            assert(cur =~= Seq::<char>::empty());
            assert(strs_view(r@) + split_acc(s@.skip(len as int), cur) =~= strs_view(r@));
        }
    }
    r
}

/// Whitespace as far as trimming of requested root strings is concerned.
pub open spec fn is_space_char(c: char) -> bool {
    c == ' ' || c == '\t' || c == '\n' || c == '\r'
}

/// `s` with leading whitespace removed.
pub open spec fn trim_front(s: Seq<char>) -> Seq<char>
    decreases s.len(),
{
    if s.len() > 0 && is_space_char(s[0]) {
        trim_front(s.skip(1))
    } else {
        s
    }
}

/// `s` with trailing whitespace removed.
pub open spec fn trim_back(s: Seq<char>) -> Seq<char>
    decreases s.len(),
{
    if s.len() > 0 && is_space_char(s.last()) {
        trim_back(s.drop_last())
    } else {
        s
    }
}

/// `s` with leading and trailing whitespace removed.
pub open spec fn spec_trim(s: Seq<char>) -> Seq<char> {
    trim_back(trim_front(s))
}

/// Decides `is_space_char`.
fn is_space(c: char) -> (r: bool)
    ensures
        r == is_space_char(c),
{
    c == ' ' || c == '\t' || c == '\n' || c == '\r'
}

/// Trims leading and trailing whitespace from a string slice.
pub fn trim_spaces(s: &str) -> (r: &str)
    ensures
        r@ == spec_trim(s@),
{
    let len = s.unicode_len();
    let mut lo: usize = 0;
    proof {
        assert(s@.skip(0) =~= s@);
    }
    while lo < len && is_space(s.get_char(lo))
        invariant
            lo <= len,
            len == s@.len(),
            trim_front(s@) == trim_front(s@.skip(lo as int)),
        decreases len - lo,
    {
        proof {
            assert(s@.skip(lo as int).skip(1) =~= s@.skip(lo + 1));
        }
        lo = lo + 1;
    }
    proof {
        assert(trim_front(s@.skip(lo as int)) == s@.skip(lo as int));
        assert(s@.skip(lo as int) =~= s@.subrange(lo as int, len as int));
    }
    let mut hi: usize = len;
    while hi > lo && is_space(s.get_char(hi - 1))
        invariant
            lo <= hi <= len,
            len == s@.len(),
            trim_back(s@.subrange(lo as int, len as int)) == trim_back(
                s@.subrange(lo as int, hi as int),
            ),
        decreases hi,
    {
        proof {
            let part = s@.subrange(lo as int, hi as int);
            assert(part.last() == s@[hi - 1]);
            assert(part.drop_last() =~= s@.subrange(lo as int, hi - 1));
        }
        hi = hi - 1;
    }
    proof {
        let part = s@.subrange(lo as int, hi as int);
        assert(trim_back(part) == part);
    }
    s.substring_char(lo, hi)
}

/// The decimal digit character for `d`.
pub open spec fn dec_digit(d: nat) -> char {
    if d == 0 {
        '0'
    } else if d == 1 {
        '1'
    } else if d == 2 {
        '2'
    } else if d == 3 {
        '3'
    } else if d == 4 {
        '4'
    } else if d == 5 {
        '5'
    } else if d == 6 {
        '6'
    } else if d == 7 {
        '7'
    } else if d == 8 {
        '8'
    } else {
        '9'
    }
}

/// The decimal representation of `n`, without leading zeros (except for
/// `n == 0` itself).
pub open spec fn dec_chars(n: nat) -> Seq<char>
    decreases n,
{
    if n < 10 {
        seq![dec_digit(n)]
    } else {
        dec_chars(n / 10).push(dec_digit(n % 10))
    }
}

/// The decimal digit string for `d`.
fn digit_str(d: u64) -> (r: &'static str)
    requires
        d < 10,
    ensures
        r@ == seq![dec_digit(d as nat)],
{
    let r = if d == 0 {
        "0"
    } else if d == 1 {
        "1"
    } else if d == 2 {
        "2"
    } else if d == 3 {
        "3"
    } else if d == 4 {
        "4"
    } else if d == 5 {
        "5"
    } else if d == 6 {
        "6"
    } else if d == 7 {
        "7"
    } else if d == 8 {
        "8"
    } else {
        "9"
    };
    proof {
        reveal_strlit("0");
        reveal_strlit("1");
        reveal_strlit("2");
        reveal_strlit("3");
        reveal_strlit("4");
        reveal_strlit("5");
        reveal_strlit("6");
        reveal_strlit("7");
        reveal_strlit("8");
        reveal_strlit("9");
        assert(r@ =~= seq![dec_digit(d as nat)]);
    }
    r
}

/// Formats `n` in decimal.
pub fn format_u64(n: u64) -> (r: String)
    ensures
        r@ == dec_chars(n as nat),
    decreases n,
{
    if n < 10 {
        digit_str(n).to_owned()
    } else {
        let mut r = format_u64(n / 10);
        r.append(digit_str(n % 10));
        proof {
            assert(dec_chars((n / 10) as nat) + seq![dec_digit((n % 10) as nat)] =~= dec_chars(
                (n / 10) as nat,
            ).push(dec_digit((n % 10) as nat)));
        }
        r
    }
}

/// The components joined by `sep`: empty for no components, otherwise the
/// components with one separator between each adjacent pair.
pub open spec fn joined(parts: Seq<Seq<char>>, sep: Seq<char>) -> Seq<char>
    decreases parts.len(),
{
    if parts.len() == 0 {
        seq![]
    } else if parts.len() == 1 {
        parts[0]
    } else {
        joined(parts.drop_last(), sep) + sep + parts.last()
    }
}

/// Joins the strings in `parts` with the separator `sep`.
pub fn join_parts(parts: &Vec<String>, sep: &str) -> (r: String)
    ensures
        r@ == joined(strs_view(parts@), sep@),
{
    let mut r = String::new();
    let mut i: usize = 0;
    while i < parts.len()
        invariant
            i <= parts.len(),
            r@ == joined(strs_view(parts@).take(i as int), sep@),
        decreases parts.len() - i,
    {
        if i > 0 {
            r.append(sep);
        }
        r.append(parts[i].as_str());
        proof {
            let cv = strs_view(parts@);
            assert(cv.take(i + 1).drop_last() =~= cv.take(i as int));
            assert(cv.take(i + 1).last() == parts@[i as int]@);
        }
        i = i + 1;
    }
    proof {
        assert(strs_view(parts@).take(parts@.len() as int) =~= strs_view(parts@));
    }
    r
}

} // verus!
