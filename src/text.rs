use vstd::prelude::*;

verus! {

/// `pat` occurs in `t` starting at index `i`.
pub open spec fn occurs_at(t: Seq<char>, i: int, pat: Seq<char>) -> bool {
    0 <= i && i + pat.len() <= t.len() && t.subrange(i, i + pat.len()) == pat
}

/// The first index at or after `i` where `pat` occurs in `t`.
pub open spec fn first_occ(t: Seq<char>, i: int, pat: Seq<char>) -> Option<int>
    decreases t.len() - i,
{
    if i < 0 || i >= t.len() {
        None
    } else if occurs_at(t, i, pat) {
        Some(i)
    } else {
        first_occ(t, i + 1, pat)
    }
}

/// The last index at or before `j` where `pat` occurs in `t`.
pub open spec fn last_occ(t: Seq<char>, j: int, pat: Seq<char>) -> Option<int>
    decreases j + 1,
{
    if j < 0 {
        None
    } else if occurs_at(t, j, pat) {
        Some(j)
    } else {
        last_occ(t, j - 1, pat)
    }
}

/// `pat` occurs somewhere in `s`.
pub open spec fn contains(s: Seq<char>, pat: Seq<char>) -> bool {
    first_occ(s, 0, pat) is Some
}

/// A character with the Unicode `White_Space` property.
pub open spec fn is_white(c: char) -> bool {
    let u = c as u32;
    (9 <= u <= 13) || u == 32 || u == 0x85 || u == 0xA0 || u == 0x1680 || (0x2000 <= u <= 0x200A)
        || u == 0x2028 || u == 0x2029 || u == 0x202F || u == 0x205F || u == 0x3000
}

/// `s` without its leading white space.
pub open spec fn trim_start(s: Seq<char>) -> Seq<char>
    decreases s.len(),
{
    if s.len() > 0 && is_white(s[0]) {
        trim_start(s.drop_first())
    } else {
        s
    }
}

/// `s` without one trailing carriage return.
pub open spec fn strip_cr(s: Seq<char>) -> Seq<char> {
    if s.len() > 0 && s.last() == '\r' {
        s.drop_last()
    } else {
        s
    }
}

/// The pieces of `s` between line feeds, each without a trailing carriage return.
pub open spec fn raw_pieces(s: Seq<char>) -> Seq<Seq<char>>
    decreases s.len(),
{
    if s.len() == 0 {
        seq![Seq::<char>::empty()]
    } else if s.last() == '\n' {
        raw_pieces(s.drop_last()).push(Seq::<char>::empty())
    } else {
        let p = raw_pieces(s.drop_last());
        p.update(p.len() - 1, p.last().push(s.last()))
    }
}

pub open spec fn lines_of(s: Seq<char>) -> Seq<Seq<char>> {
    raw_pieces(s).map_values(|p: Seq<char>| strip_cr(p))
}

/// What follows the first occurrence of `delim` in `s`, if any.
pub open spec fn after_first(s: Seq<char>, delim: Seq<char>) -> Option<Seq<char>> {
    match first_occ(s, 0, delim) {
        Some(p) => Some(s.subrange(p + delim.len(), s.len() as int)),
        None => None,
    }
}

pub open spec fn opt_int(r: Option<usize>) -> Option<int> {
    match r {
        Some(p) => Some(p as int),
        None => None,
    }
}

/// Relies on String::push: appends one character at the end.
#[verifier::external_body]
fn push_char(s: &mut String, c: char)
    ensures
        final(s)@ == old(s)@.push(c),
{
    s.push(c)
}

/// The characters of `s`, in order.
pub fn chars_of(s: &str) -> (r: Vec<char>)
    ensures
        r@ == s@,
{
    let mut r: Vec<char> = Vec::new();
    for c in it: s.chars()
        invariant
            r@ == it.seq().take(it.index() as int),
    {
        r.push(c);
    }
    assert(r@ =~= s@);
    r
}

/// A `String` holding `t[from..to]`.
pub fn string_of(t: &Vec<char>, from: usize, to: usize) -> (r: String)
    requires
        from <= to <= t@.len(),
    ensures
        r@ == t@.subrange(from as int, to as int),
{
    let mut r = String::new();
    let mut i: usize = from;
    while i < to
        invariant
            from <= i <= to <= t@.len(),
            r@ == t@.subrange(from as int, i as int),
        decreases to - i,
    {
        push_char(&mut r, t[i]);
        assert(r@ =~= t@.subrange(from as int, i + 1));
        i = i + 1;
    }
    r
}

/// A copy of `t[from..to]`.
pub fn copy_range(t: &Vec<char>, from: usize, to: usize) -> (r: Vec<char>)
    requires
        from <= to <= t@.len(),
    ensures
        r@ == t@.subrange(from as int, to as int),
{
    let mut r: Vec<char> = Vec::new();
    let mut i: usize = from;
    while i < to
        invariant
            from <= i <= to <= t@.len(),
            r@ == t@.subrange(from as int, i as int),
        decreases to - i,
    {
        r.push(t[i]);
        assert(r@ =~= t@.subrange(from as int, i + 1));
        i = i + 1;
    }
    r
}

/// Whether `pat` occurs in `t` at index `i`.
pub fn matches_at(t: &Vec<char>, i: usize, pat: &Vec<char>) -> (r: bool)
    ensures
        r == occurs_at(t@, i as int, pat@),
{
    let n = t.len();
    let pl = pat.len();
    if pl > n || i > n - pl {
        return false;
    }
    let mut k: usize = 0;
    while k < pl
        invariant
            n == t@.len(),
            pl == pat@.len(),
            k <= pl,
            i + pl <= n,
            forall|j: int| 0 <= j < k ==> t@[i + j] == pat@[j],
        decreases pat@.len() - k,
    {
        if t[i + k] != pat[k] {
            assert(t@.subrange(i as int, i + pat@.len())[k as int] != pat@[k as int]);
            return false;
        }
        k = k + 1;
    }
    assert(t@.subrange(i as int, i + pat@.len()) =~= pat@);
    true
}

/// The first index at or after `from` where `pat` occurs in `t`.
pub fn find_from(t: &Vec<char>, from: usize, pat: &Vec<char>) -> (r: Option<usize>)
    ensures
        opt_int(r) == first_occ(t@, from as int, pat@),
{
    let mut i: usize = from;
    while i < t.len()
        invariant
            from <= i,
            first_occ(t@, from as int, pat@) == first_occ(t@, i as int, pat@),
        decreases t@.len() - i,
    {
        if matches_at(t, i, pat) {
            return Some(i);
        }
        i = i + 1;
    }
    None
}

/// The last index `i` with `i + pat.len() <= lim` where `pat` occurs in `t`.
pub fn rfind_before(t: &Vec<char>, lim: usize, pat: &Vec<char>) -> (r: Option<usize>)
    ensures
        opt_int(r) == last_occ(t@, lim - pat@.len(), pat@),
{
    if pat.len() > lim {
        return None;
    }
    let mut j: usize = lim - pat.len();
    loop
        invariant
            j <= lim - pat@.len(),
            last_occ(t@, lim - pat@.len(), pat@) == last_occ(t@, j as int, pat@),
        decreases j,
    {
        if matches_at(t, j, pat) {
            return Some(j);
        }
        if j == 0 {
            assert(last_occ(t@, -1, pat@) is None);
            return None;
        }
        j = j - 1;
    }
}

pub fn is_white_char(c: char) -> (r: bool)
    ensures
        r == is_white(c),
{
    let u = c as u32;
    (9 <= u && u <= 13) || u == 32 || u == 0x85 || u == 0xA0 || u == 0x1680 || (0x2000 <= u && u
        <= 0x200A) || u == 0x2028 || u == 0x2029 || u == 0x202F || u == 0x205F || u == 0x3000
}

/// The index of the first character of `s` that is not white space, or its length.
pub fn skip_white(s: &Vec<char>) -> (r: usize)
    ensures
        r <= s@.len(),
        trim_start(s@) == s@.subrange(r as int, s@.len() as int),
{
    let mut i: usize = 0;
    assert(s@.subrange(0, s@.len() as int) =~= s@);
    while i < s.len() && is_white_char(s[i])
        invariant
            i <= s@.len(),
            trim_start(s@) == trim_start(s@.subrange(i as int, s@.len() as int)),
        decreases s@.len() - i,
    {
        assert(s@.subrange(i as int, s@.len() as int).drop_first() =~= s@.subrange(
            i + 1,
            s@.len() as int,
        ));
        i = i + 1;
    }
    assert(s@.subrange(0, s@.len() as int) =~= s@);
    i
}

/// The text of `s` from `start` up to the first occurrence of `delim` at or after it, if any.
pub fn slice(s: &Vec<char>, start: usize, delim: &Vec<char>) -> (r: Option<Vec<char>>)
    ensures
        match r {
            Some(v) => first_occ(s@, start as int, delim@) is Some && v@ == s@.subrange(
                start as int,
                first_occ(s@, start as int, delim@)->Some_0,
            ),
            None => first_occ(s@, start as int, delim@) is None,
        },
{
    match find_from(s, start, delim) {
        Some(e) => {
            proof {
                lemma_first_occ_found(s@, start as int, delim@);
            }
            Some(copy_range(s, start, e))
        },
        None => None,
    }
}

/// What follows the first occurrence of `delim` in `s`, if any.
pub fn slice_from(s: &Vec<char>, delim: &Vec<char>) -> (r: Option<Vec<char>>)
    ensures
        match r {
            Some(v) => after_first(s@, delim@) == Some(v@),
            None => after_first(s@, delim@) is None,
        },
{
    let n = s.len();
    let dl = delim.len();
    match find_from(s, 0, delim) {
        Some(p) => {
            proof {
                lemma_first_occ_found(s@, 0, delim@);
                assert(occurs_at(s@, p as int, delim@));
            }
            Some(copy_range(s, p + dl, n))
        },
        None => None,
    }
}

/// Nothing between the start and a found occurrence is one.
pub proof fn lemma_first_occ_min(t: Seq<char>, i: int, pat: Seq<char>)
    requires
        0 <= i,
    ensures
        match first_occ(t, i, pat) {
            Some(e) => forall|p: int| i <= p < e ==> !occurs_at(t, p, pat),
            None => forall|p: int| i <= p < t.len() ==> !occurs_at(t, p, pat),
        },
    decreases t.len() - i,
{
    if i < t.len() && !occurs_at(t, i, pat) {
        lemma_first_occ_min(t, i + 1, pat);
    }
}

/// An occurrence of `a + b` starts with an occurrence of `a`.
pub proof fn lemma_occurs_prefix(t: Seq<char>, i: int, a: Seq<char>, b: Seq<char>)
    requires
        occurs_at(t, i, a + b),
    ensures
        occurs_at(t, i, a),
{
    assert(t.subrange(i, i + a.len()) =~= t.subrange(i, i + (a + b).len()).subrange(0, a.len() as int));
    assert((a + b).subrange(0, a.len() as int) =~= a);
}

/// A found occurrence is an occurrence, at or after the start.
pub proof fn lemma_first_occ_found(t: Seq<char>, i: int, pat: Seq<char>)
    ensures
        match first_occ(t, i, pat) {
            Some(p) => i <= p && occurs_at(t, p, pat),
            None => true,
        },
    decreases t.len() - i,
{
    if i >= 0 && i < t.len() && !occurs_at(t, i, pat) {
        lemma_first_occ_found(t, i + 1, pat);
    }
}

/// A found occurrence is an occurrence, at or before the limit.
pub proof fn lemma_last_occ_found(t: Seq<char>, j: int, pat: Seq<char>)
    ensures
        match last_occ(t, j, pat) {
            Some(p) => 0 <= p <= j && occurs_at(t, p, pat),
            None => forall|p: int| 0 <= p <= j ==> !occurs_at(t, p, pat),
        },
    decreases j + 1,
{
    if j >= 0 && !occurs_at(t, j, pat) {
        lemma_last_occ_found(t, j - 1, pat);
    }
}

/// The lines of `t[from..to]`, each without its carriage return.
pub fn split_lines(t: &Vec<char>, from: usize, to: usize) -> (r: Vec<Vec<char>>)
    requires
        from <= to <= t@.len(),
    ensures
        r@.map_values(|v: Vec<char>| v@) == lines_of(t@.subrange(from as int, to as int)),
{
    let mut out: Vec<Vec<char>> = Vec::new();
    let mut cur: usize = from;
    let mut i: usize = from;
    let ghost mut ps: Seq<Seq<char>> = raw_pieces(Seq::<char>::empty());
    assert(t@.subrange(from as int, from as int) =~= Seq::<char>::empty());
    while i < to
        invariant
            from <= cur <= i <= to <= t@.len(),
            ps == raw_pieces(t@.subrange(from as int, i as int)),
            ps.len() >= 1,
            ps.last() == t@.subrange(cur as int, i as int),
            out@.map_values(|v: Vec<char>| v@) == ps.drop_last().map_values(
                |p: Seq<char>| strip_cr(p),
            ),
        decreases to - i,
    {
        let ghost s1 = t@.subrange(from as int, i + 1);
        assert(s1.drop_last() =~= t@.subrange(from as int, i as int));
        assert(s1.last() == t@[i as int]);
        if t[i] == '\n' {
            let piece = strip_piece(t, cur, i);
            let ghost old_out = out@;
            out.push(piece);
            proof {
                let np = ps.push(Seq::<char>::empty());
                assert(np.drop_last() =~= ps);
                lemma_push_piece(old_out, piece, out@, ps);
                ps = np;
            }
            cur = i + 1;
            assert(t@.subrange(cur as int, i + 1) =~= Seq::<char>::empty());
        } else {
            proof {
                let np = ps.update(ps.len() - 1, ps.last().push(t@[i as int]));
                assert(np.drop_last() =~= ps.drop_last());
                assert(t@.subrange(cur as int, i + 1) =~= ps.last().push(t@[i as int]));
                ps = np;
            }
        }
        i = i + 1;
    }
    let piece = strip_piece(t, cur, to);
    let ghost old_out = out@;
    out.push(piece);
    proof {
        lemma_push_piece(old_out, piece, out@, ps);
    }
    out
}

proof fn lemma_push_piece(
    old_out: Seq<Vec<char>>,
    piece: Vec<char>,
    out: Seq<Vec<char>>,
    ps: Seq<Seq<char>>,
)
    requires
        ps.len() >= 1,
        out == old_out.push(piece),
        piece@ == strip_cr(ps.last()),
        old_out.map_values(|v: Vec<char>| v@) == ps.drop_last().map_values(
            |p: Seq<char>| strip_cr(p),
        ),
    ensures
        out.map_values(|v: Vec<char>| v@) == ps.map_values(|p: Seq<char>| strip_cr(p)),
{
    let a = out.map_values(|v: Vec<char>| v@);
    let b = ps.map_values(|p: Seq<char>| strip_cr(p));
    let oa = old_out.map_values(|v: Vec<char>| v@);
    let ob = ps.drop_last().map_values(|p: Seq<char>| strip_cr(p));
    assert(oa.len() == old_out.len());
    assert(ob.len() == ps.len() - 1);
    assert(a.len() == b.len());
    assert forall|k: int| 0 <= k < a.len() implies a[k] == b[k] by {
        if k < old_out.len() {
            assert(old_out.map_values(|v: Vec<char>| v@)[k] == ps.drop_last().map_values(
                |p: Seq<char>| strip_cr(p),
            )[k]);
        }
    }
    assert(a =~= b);
}

/// A copy of `t[from..to]` without one trailing carriage return.
fn strip_piece(t: &Vec<char>, from: usize, to: usize) -> (r: Vec<char>)
    requires
        from <= to <= t@.len(),
    ensures
        r@ == strip_cr(t@.subrange(from as int, to as int)),
{
    if to > from && t[to - 1] == '\r' {
        let r = copy_range(t, from, to - 1);
        assert(r@ =~= t@.subrange(from as int, to as int).drop_last());
        r
    } else {
        copy_range(t, from, to)
    }
}

} // verus!
