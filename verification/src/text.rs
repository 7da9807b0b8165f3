//! Character-level string helpers shared by the report writers.

use vstd::prelude::*;
use vstd::string::*;

verus! {

/// The decimal digit character of `d`.
pub open spec fn digit_char(d: nat) -> char {
    if d == 0 { '0' }
    else if d == 1 { '1' }
    else if d == 2 { '2' }
    else if d == 3 { '3' }
    else if d == 4 { '4' }
    else if d == 5 { '5' }
    else if d == 6 { '6' }
    else if d == 7 { '7' }
    else if d == 8 { '8' }
    else { '9' }
}

/// The decimal writing of `n`, without leading zeros.
pub open spec fn decimal(n: nat) -> Seq<char>
    decreases n,
{
    if n < 10 {
        seq![digit_char(n)]
    } else {
        decimal(n / 10) + seq![digit_char(n % 10)]
    }
}

fn digit_str(d: usize) -> (r: &'static str)
    requires
        d < 10,
    ensures
        r@ == seq![digit_char(d as nat)],
{
    proof {
        reveal_strlit("0");
        reveal_strlit("1");
        reveal_strlit("2");
        reveal_strlit("3");
        reveal_strlit("4");
        reveal_strlit("5");
        reveal_strlit("6");
        reveal_strlit("7");
        reveal_strlit("8");
        reveal_strlit("9");
    }
    if d == 0 { "0" }
    else if d == 1 { "1" }
    else if d == 2 { "2" }
    else if d == 3 { "3" }
    else if d == 4 { "4" }
    else if d == 5 { "5" }
    else if d == 6 { "6" }
    else if d == 7 { "7" }
    else if d == 8 { "8" }
    else { "9" }
}

/// Appends the decimal writing of `n` to `s`.
pub fn push_decimal(s: &mut String, n: usize)
    ensures
        final(s)@ == old(s)@ + decimal(n as nat),
    decreases n,
{
    if n < 10 {
        s.append(digit_str(n));
    } else {
        push_decimal(s, n / 10);
        s.append(digit_str(n % 10));
        proof {
            assert(decimal(n as nat) == decimal((n / 10) as nat) + seq![digit_char((n % 10) as nat)]);
        }
    }
}

/// Whether two strings hold the same characters.
pub fn str_eq(a: &str, b: &str) -> (r: bool)
    ensures
        r == (a@ == b@),
{
    let n = a.unicode_len();
    if n != b.unicode_len() {
        return false;
    }
    let mut i: usize = 0;
    while i < n
        invariant
            n == a@.len(),
            n == b@.len(),
            0 <= i <= n,
            forall|j: int| 0 <= j < i ==> a@[j] == b@[j],
        decreases n - i,
    {
        if a.get_char(i) != b.get_char(i) {
            return false;
        }
        i = i + 1;
    }
    proof {
        assert(a@ =~= b@);
    }
    true
}


/// The views of a sequence of strings.
pub open spec fn str_views(v: Seq<String>) -> Seq<Seq<char>> {
    v.map_values(|x: String| x@)
}

/// `parts` separated by `sep`.
pub open spec fn spec_join(parts: Seq<Seq<char>>, sep: Seq<char>) -> Seq<char>
    decreases parts.len(),
{
    if parts.len() == 0 {
        Seq::empty()
    } else if parts.len() == 1 {
        parts[0]
    } else {
        spec_join(parts.drop_last(), sep) + sep + parts.last()
    }
}

/// Joins `parts` with `sep` between two neighbours.
pub fn join(parts: &Vec<String>, sep: &str) -> (r: String)
    ensures
        r@ == spec_join(str_views(parts@), sep@),
{
    let mut s = String::new();
    let mut i: usize = 0;
    while i < parts.len()
        invariant
            0 <= i <= parts@.len(),
            s@ == spec_join(str_views(parts@.take(i as int)), sep@),
        decreases parts@.len() - i,
    {
        if i > 0 {
            s.append(sep);
        }
        s.append(parts[i].as_str());
        proof {
            let prev = parts@.take(i as int);
            let next = parts@.take(i + 1);
            assert(str_views(next).drop_last() =~= str_views(prev));
            assert(str_views(next).last() == parts@[i as int]@);
            if i == 0 {
                assert(str_views(next) =~= seq![parts@[0]@]);
            }
        }
        i = i + 1;
    }
    proof {
        assert(parts@.take(i as int) =~= parts@);
    }
    s
}


/// The Unicode `White_Space` characters, which `char::is_whitespace` accepts.
pub open spec fn is_space(c: char) -> bool {
    let u = c as u32;
    (0x09 <= u && u <= 0x0d) || u == 0x20 || u == 0x85 || u == 0xa0 || u == 0x1680 || (0x2000
        <= u && u <= 0x200a) || u == 0x2028 || u == 0x2029 || u == 0x202f || u == 0x205f || u
        == 0x3000
}

pub fn is_space_char(c: char) -> (r: bool)
    ensures
        r == is_space(c),
{
    let u = c as u32;
    (0x09 <= u && u <= 0x0d) || u == 0x20 || u == 0x85 || u == 0xa0 || u == 0x1680 || (0x2000
        <= u && u <= 0x200a) || u == 0x2028 || u == 0x2029 || u == 0x202f || u == 0x205f || u
        == 0x3000
}

pub open spec fn trim_start(s: Seq<char>) -> Seq<char>
    decreases s.len(),
{
    if s.len() > 0 && is_space(s[0]) {
        trim_start(s.drop_first())
    } else {
        s
    }
}

pub open spec fn trim_end(s: Seq<char>) -> Seq<char>
    decreases s.len(),
{
    if s.len() > 0 && is_space(s.last()) {
        trim_end(s.drop_last())
    } else {
        s
    }
}

/// `s` without its leading and trailing white space.
pub open spec fn spec_trim(s: Seq<char>) -> Seq<char> {
    trim_end(trim_start(s))
}

/// Removes leading and trailing white space, as `str::trim` does.
pub fn trim(s: &str) -> (r: &str)
    ensures
        r@ == spec_trim(s@),
{
    let n = s.unicode_len();
    let mut a: usize = 0;
    proof {
        assert(s@.skip(0) =~= s@);
    }
    while a < n && is_space_char(s.get_char(a))
        invariant
            n == s@.len(),
            0 <= a <= n,
            trim_start(s@) == trim_start(s@.skip(a as int)),
        decreases n - a,
    {
        proof {
            assert(s@.skip(a as int).drop_first() =~= s@.skip(a + 1));
        }
        a = a + 1;
    }
    proof {
        assert(s@.skip(a as int) =~= s@.subrange(a as int, n as int));
    }
    let mut b: usize = n;
    while b > a && is_space_char(s.get_char(b - 1))
        invariant
            n == s@.len(),
            0 <= a <= b <= n,
            spec_trim(s@) == trim_end(s@.subrange(a as int, b as int)),
        decreases b,
    {
        proof {
            assert(s@.subrange(a as int, b as int).drop_last() =~= s@.subrange(a as int, b - 1));
        }
        b = b - 1;
    }
    s.substring_char(a, b)
}

/// Whether `s` starts with `prefix`.
pub fn starts_with(s: &str, prefix: &str) -> (r: bool)
    ensures
        r == (prefix@.len() <= s@.len() && s@.take(prefix@.len() as int) == prefix@),
{
    let n = s.unicode_len();
    let m = prefix.unicode_len();
    if m > n {
        return false;
    }
    let mut i: usize = 0;
    while i < m
        invariant
            n == s@.len(),
            m == prefix@.len(),
            m <= n,
            0 <= i <= m,
            forall|j: int| 0 <= j < i ==> s@[j] == prefix@[j],
        decreases m - i,
    {
        if s.get_char(i) != prefix.get_char(i) {
            proof {
                assert(s@.take(m as int)[i as int] != prefix@[i as int]);
            }
            return false;
        }
        i = i + 1;
    }
    proof {
        assert(s@.take(m as int) =~= prefix@);
    }
    true
}


/// Lexicographic order on characters, by code point: the order of `String`.
pub open spec fn lex_lt(a: Seq<char>, b: Seq<char>) -> bool
    decreases a.len(),
{
    if a.len() == 0 {
        b.len() > 0
    } else if b.len() == 0 {
        false
    } else if a[0] != b[0] {
        (a[0] as int) < (b[0] as int)
    } else {
        lex_lt(a.drop_first(), b.drop_first())
    }
}

pub proof fn lemma_lex_irreflexive(a: Seq<char>)
    ensures
        !lex_lt(a, a),
    decreases a.len(),
{
    if a.len() > 0 {
        lemma_lex_irreflexive(a.drop_first());
    }
}

pub proof fn lemma_lex_transitive(a: Seq<char>, b: Seq<char>, c: Seq<char>)
    requires
        lex_lt(a, b),
        lex_lt(b, c),
    ensures
        lex_lt(a, c),
    decreases a.len(),
{
    if a.len() > 0 && b.len() > 0 && c.len() > 0 {
        if a[0] == b[0] && b[0] == c[0] {
            lemma_lex_transitive(a.drop_first(), b.drop_first(), c.drop_first());
        }
    }
}

pub proof fn lemma_lex_total(a: Seq<char>, b: Seq<char>)
    ensures
        a == b || lex_lt(a, b) || lex_lt(b, a),
    decreases a.len(),
{
    if a.len() > 0 && b.len() > 0 && a[0] == b[0] {
        lemma_lex_total(a.drop_first(), b.drop_first());
        if a.drop_first() == b.drop_first() {
            assert(a =~= seq![a[0]] + a.drop_first());
            assert(b =~= seq![b[0]] + b.drop_first());
        }
    } else if a.len() == 0 && b.len() == 0 {
        assert(a =~= b);
    } else if a.len() > 0 && b.len() > 0 {
        assert(a[0] != b[0]);
    }
}

/// Whether `a` comes strictly before `b` in lexicographic order.
pub fn lex_less(a: &str, b: &str) -> (r: bool)
    ensures
        r == lex_lt(a@, b@),
{
    let n = a.unicode_len();
    let m = b.unicode_len();
    let mut i: usize = 0;
    proof {
        assert(a@.skip(0) =~= a@);
        assert(b@.skip(0) =~= b@);
    }
    while i < n && i < m
        invariant
            n == a@.len(),
            m == b@.len(),
            0 <= i <= n,
            i <= m,
            lex_lt(a@, b@) == lex_lt(a@.skip(i as int), b@.skip(i as int)),
        decreases n - i,
    {
        let x = a.get_char(i);
        let y = b.get_char(i);
        if x != y {
            return (x as u32) < (y as u32);
        }
        proof {
            assert(a@.skip(i as int).drop_first() =~= a@.skip(i + 1));
            assert(b@.skip(i as int).drop_first() =~= b@.skip(i + 1));
        }
        i = i + 1;
    }
    i < m && i == n
}


/// The pieces of `s` cut just after each line feed, as `split_inclusive('\n')`
/// gives them (no empty piece at the end).
pub open spec fn line_pieces(s: Seq<char>) -> Seq<Seq<char>>
    decreases s.len(),
{
    if s.len() == 0 {
        Seq::empty()
    } else {
        let p = line_pieces(s.drop_last());
        let c = s.last();
        if p.len() == 0 || p.last().last() == '\n' {
            p.push(seq![c])
        } else {
            p.update(p.len() - 1, p.last().push(c))
        }
    }
}

/// A piece without its line ending ("\n" or "\r\n").
pub open spec fn strip_line_end(piece: Seq<char>) -> Seq<char> {
    if piece.len() > 0 && piece.last() == '\n' {
        let q = piece.drop_last();
        if q.len() > 0 && q.last() == '\r' {
            q.drop_last()
        } else {
            q
        }
    } else {
        piece
    }
}

/// The lines of `s`, as `str::lines` gives them.
pub open spec fn spec_lines(s: Seq<char>) -> Seq<Seq<char>> {
    line_pieces(s).map_values(|p: Seq<char>| strip_line_end(p))
}

pub proof fn lemma_line_pieces_last(s: Seq<char>)
    ensures
        s.len() == 0 <==> line_pieces(s).len() == 0,
        s.len() > 0 ==> line_pieces(s).last().len() > 0 && line_pieces(s).last().last() == s.last(),
    decreases s.len(),
{
    if s.len() > 0 {
        lemma_line_pieces_last(s.drop_last());
    }
}

fn strip_piece(piece: &str) -> (r: &str)
    ensures
        r@ == strip_line_end(piece@),
{
    let n = piece.unicode_len();
    if n > 0 && piece.get_char(n - 1) == '\n' {
        if n > 1 && piece.get_char(n - 2) == '\r' {
            proof {
                assert(piece@.drop_last().drop_last() =~= piece@.subrange(0, n - 2));
            }
            piece.substring_char(0, n - 2)
        } else {
            proof {
                assert(piece@.drop_last() =~= piece@.subrange(0, n - 1));
            }
            piece.substring_char(0, n - 1)
        }
    } else {
        proof {
            assert(piece@ =~= piece@.subrange(0, n as int));
        }
        piece.substring_char(0, n)
    }
}

/// The lines of a text, as `str::lines` cuts them.
pub fn lines(s: &str) -> (r: Vec<String>)
    ensures
        str_views(r@) == spec_lines(s@),
{
    let n = s.unicode_len();
    let mut out: Vec<String> = Vec::new();
    let mut start: usize = 0;
    let mut i: usize = 0;
    proof {
        assert(s@.take(0) =~= Seq::<char>::empty());
        assert(str_views(out@) =~= spec_lines(s@.take(0)));
    }
    while i < n
        invariant
            n == s@.len(),
            0 <= start <= i <= n,
            str_views(out@) == spec_lines(s@.take(start as int)),
            forall|k: int| start <= k < i ==> s@[k] != '\n',
            start == 0 || s@[start - 1] == '\n',
            line_pieces(s@.take(i as int)) == if start == i {
                line_pieces(s@.take(start as int))
            } else {
                line_pieces(s@.take(start as int)).push(s@.subrange(start as int, i as int))
            },
        decreases n - i,
    {
        let c = s.get_char(i);
        proof {
            let t = s@.take(i + 1);
            assert(t.drop_last() =~= s@.take(i as int));
            assert(t.last() == c);
            let closed = line_pieces(s@.take(start as int));
            if start == i {
                lemma_line_pieces_last(s@.take(start as int));
                if start > 0 {
                    assert(s@.take(start as int).last() == s@[start - 1]);
                }
                assert(s@.subrange(start as int, i + 1) =~= seq![c]);
                assert(line_pieces(t) == closed.push(seq![c]));
            } else {
                let open = s@.subrange(start as int, i as int);
                assert(open.last() == s@[i - 1]);
                assert(s@.subrange(start as int, i + 1) =~= open.push(c));
                assert(line_pieces(t) =~= closed.push(open.push(c)));
            }
        }
        if c == '\n' {
            let piece = s.substring_char(start, i + 1);
            let line = strip_piece(piece);
            let ghost before_views = str_views(out@);
            out.push(String::from_str(line));
            proof {
                let closed = line_pieces(s@.take(start as int));
                let now = line_pieces(s@.take(i + 1));
                assert(now =~= closed.push(piece@));
                assert(str_views(out@) =~= before_views.push(line@));
                assert(spec_lines(s@.take(i + 1)) =~= spec_lines(s@.take(start as int)).push(
                    strip_line_end(piece@),
                ));
                assert(str_views(out@) =~= spec_lines(s@.take(i + 1)));
            }
            start = i + 1;
        }
        i = i + 1;
    }
    proof {
        assert(s@.take(n as int) =~= s@);
    }
    if start < n {
        let piece = s.substring_char(start, n);
        let ghost before_views = str_views(out@);
        out.push(String::from_str(piece));
        proof {
            assert(piece@.last() == s@[n - 1]);
            assert(strip_line_end(piece@) == piece@);
            assert(str_views(out@) =~= before_views.push(piece@));
            assert(line_pieces(s@) == line_pieces(s@.take(start as int)).push(piece@));
            assert(spec_lines(s@) =~= spec_lines(s@.take(start as int)).push(piece@));
            assert(str_views(out@) =~= spec_lines(s@));
        }
    }
    out
}

/// The last of `lines` that starts with `marker`, without the marker.
pub open spec fn last_marked(lines: Seq<Seq<char>>, marker: Seq<char>) -> Option<Seq<char>>
    decreases lines.len(),
{
    if lines.len() == 0 {
        None
    } else if marker.len() <= lines.last().len() && lines.last().take(marker.len() as int) == marker {
        Some(lines.last().skip(marker.len() as int))
    } else {
        last_marked(lines.drop_last(), marker)
    }
}

/// The rest of the last line of `text` that starts with `marker`.
pub fn last_marked_line(text: &str, marker: &str) -> (r: Option<String>)
    ensures
        match r {
            Some(v) => last_marked(spec_lines(text@), marker@) == Some(v@),
            None => last_marked(spec_lines(text@), marker@) is None,
        },
{
    let all = lines(text);
    let m = marker.unicode_len();
    let mut k: usize = all.len();
    proof {
        assert(str_views(all@).take(k as int) =~= str_views(all@));
    }
    while k > 0
        invariant
            0 <= k <= all@.len(),
            m == marker@.len(),
            str_views(all@) == spec_lines(text@),
            last_marked(str_views(all@), marker@) == last_marked(str_views(all@).take(k as int), marker@),
        decreases k,
    {
        let line = all[k - 1].as_str();
        proof {
            let t = str_views(all@).take(k as int);
            assert(t.last() == line@);
            assert(t.drop_last() =~= str_views(all@).take(k - 1));
        }
        if starts_with(line, marker) {
            let n = line.unicode_len();
            proof {
                assert(line@.subrange(m as int, n as int) =~= line@.skip(m as int));
                let t = str_views(all@).take(k as int);
                assert(last_marked(t, marker@) == Some(line@.skip(m as int)));
            }
            return Some(String::from_str(line.substring_char(m, n)));
        }
        k = k - 1;
    }
    None
}


/// The number of line feeds in `s`.
pub open spec fn count_newlines(s: Seq<char>) -> nat
    decreases s.len(),
{
    if s.len() == 0 {
        0
    } else {
        count_newlines(s.drop_last()) + if s.last() == '\n' {
            1nat
        } else {
            0nat
        }
    }
}

pub broadcast proof fn lemma_count_newlines_add(a: Seq<char>, b: Seq<char>)
    ensures
        #[trigger] count_newlines(a + b) == count_newlines(a) + count_newlines(b),
    decreases b.len(),
{
    if b.len() == 0 {
        assert(a + b =~= a);
    } else {
        lemma_count_newlines_add(a, b.drop_last());
        assert((a + b).drop_last() =~= a + b.drop_last());
        assert((a + b).last() == b.last());
    }
}

pub proof fn lemma_count_single(c: char)
    ensures
        count_newlines(seq![c]) == if c == '\n' {
            1nat
        } else {
            0nat
        },
{
    assert(seq![c].drop_last() =~= Seq::<char>::empty());
    assert(count_newlines(Seq::<char>::empty()) == 0);
    assert(seq![c].last() == c);
}

pub proof fn lemma_no_newline_count(s: Seq<char>)
    requires
        !s.contains('\n'),
    ensures
        count_newlines(s) == 0,
    decreases s.len(),
{
    if s.len() > 0 {
        assert(!s.drop_last().contains('\n')) by {
            if s.drop_last().contains('\n') {
                let k = choose|k: int| 0 <= k < s.drop_last().len() && s.drop_last()[k] == '\n';
                assert(s[k] == '\n');
            }
        }
        lemma_no_newline_count(s.drop_last());
        assert(s[s.len() - 1] != '\n');
    }
}

/// A text has one line per line feed, plus one for an unterminated last line.
pub proof fn lemma_line_count(s: Seq<char>)
    ensures
        spec_lines(s).len() == count_newlines(s) + if s.len() > 0 && s.last() != '\n' {
            1nat
        } else {
            0nat
        },
    decreases s.len(),
{
    if s.len() > 0 {
        lemma_line_count(s.drop_last());
        lemma_line_pieces_last(s.drop_last());
    }
}

pub open spec fn spaces(n: nat) -> Seq<char> {
    Seq::new(n, |i: int| ' ')
}

pub open spec fn str_ref_views(v: Seq<&str>) -> Seq<Seq<char>> {
    v.map_values(|x: &str| x@)
}

/// The length of the longest label.
pub open spec fn label_width(labels: Seq<Seq<char>>) -> nat
    decreases labels.len(),
{
    if labels.len() == 0 {
        0
    } else {
        let w = label_width(labels.drop_last());
        if labels.last().len() > w {
            labels.last().len()
        } else {
            w
        }
    }
}

/// A label padded with spaces to `width` characters, then ": ", the value
/// and a line feed.
pub open spec fn aligned_row(label: Seq<char>, value: Seq<char>, width: nat) -> Seq<char> {
    label + spaces((width - label.len()) as nat) + ": "@ + value + "\n"@
}

/// The first `k` rows, each label padded to `width`.
pub open spec fn aligned_rows_upto(
    labels: Seq<Seq<char>>,
    values: Seq<Seq<char>>,
    width: nat,
    k: nat,
) -> Seq<char>
    decreases k,
{
    if k == 0 {
        Seq::empty()
    } else {
        aligned_rows_upto(labels, values, width, (k - 1) as nat) + aligned_row(
            labels[k - 1],
            values[k - 1],
            width,
        )
    }
}

/// Rows of "label: value", the labels padded to the longest of them so that
/// every colon stands in the same column.
pub open spec fn aligned_rows(labels: Seq<Seq<char>>, values: Seq<Seq<char>>) -> Seq<char> {
    aligned_rows_upto(labels, values, label_width(labels), labels.len())
}

pub proof fn lemma_label_width(labels: Seq<Seq<char>>, i: int)
    requires
        0 <= i < labels.len(),
    ensures
        labels[i].len() <= label_width(labels),
    decreases labels.len(),
{
    if i < labels.len() - 1 {
        lemma_label_width(labels.drop_last(), i);
    }
}

/// In aligned rows, the colon of every row stands right after the width of
/// the longest label.
pub proof fn law_aligned_rows_share_colon_column(labels: Seq<Seq<char>>, i: int)
    requires
        0 <= i < labels.len(),
    ensures
        (labels[i] + spaces((label_width(labels) - labels[i].len()) as nat)).len() == label_width(
            labels,
        ),
{
    lemma_label_width(labels, i);
}

/// Appends rows of "label: value", the labels padded with spaces to the
/// longest of them.
pub fn write_aligned_rows(s: &mut String, labels: &Vec<&str>, values: &Vec<String>)
    requires
        labels@.len() == values@.len(),
    ensures
        final(s)@ == old(s)@ + aligned_rows(str_ref_views(labels@), str_views(values@)),
{
    let ghost ls = str_ref_views(labels@);
    let ghost vs = str_views(values@);
    let mut width: usize = 0;
    let mut i: usize = 0;
    while i < labels.len()
        invariant
            0 <= i <= labels@.len(),
            ls == str_ref_views(labels@),
            width == label_width(ls.take(i as int)),
        decreases labels@.len() - i,
    {
        let n = labels[i].unicode_len();
        proof {
            assert(ls.take(i + 1).drop_last() =~= ls.take(i as int));
            assert(ls.take(i + 1).last() == labels@[i as int]@);
        }
        if n > width {
            width = n;
        }
        i = i + 1;
    }
    proof {
        assert(ls.take(i as int) =~= ls);
    }
    let ghost start = s@;
    let mut k: usize = 0;
    while k < labels.len()
        invariant
            0 <= k <= labels@.len(),
            labels@.len() == values@.len(),
            ls == str_ref_views(labels@),
            vs == str_views(values@),
            width == label_width(ls),
            s@ == start + aligned_rows_upto(ls, vs, width as nat, k as nat),
        decreases labels@.len() - k,
    {
        let label = labels[k];
        let n = label.unicode_len();
        proof {
            lemma_label_width(ls, k as int);
            assert(ls[k as int] == label@);
        }
        let ghost row_start = s@;
        s.append(label);
        let mut p: usize = n;
        while p < width
            invariant
                n <= p <= width,
                n == label@.len(),
                s@ == row_start + label@ + spaces((p - n) as nat),
            decreases width - p,
        {
            proof {
                reveal_strlit(" ");
            }
            s.append(" ");
            proof {
                assert(spaces((p + 1 - n) as nat) =~= spaces((p - n) as nat) + " "@);
            }
            p = p + 1;
        }
        s.append(": ");
        s.append(values[k].as_str());
        s.append("\n");
        proof {
            assert(vs[k as int] == values@[k as int]@);
            assert(s@ =~= row_start + aligned_row(ls[k as int], vs[k as int], width as nat));
        }
        k = k + 1;
    }
}

/// The decimal writing of `n`.
pub fn decimal_string(n: usize) -> (r: String)
    ensures
        r@ == decimal(n as nat),
{
    let mut s = String::new();
    push_decimal(&mut s, n);
    proof {
        assert(s@ =~= decimal(n as nat));
    }
    s
}

} // verus!
