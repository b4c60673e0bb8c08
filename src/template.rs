//! Text layout of a stored template: one point per line, the two
//! coordinates separated by whitespace. Turning the coordinate fields into
//! numbers, and numbers into fields, is left to the caller.
use vstd::prelude::*;
use vstd::string::*;

verus! {

/// The pieces of `t` between occurrences of `sep`; always at least one.
pub open spec fn pieces(t: Seq<char>, sep: char) -> Seq<Seq<char>>
    decreases t.len(),
{
    if t.len() == 0 {
        seq![Seq::empty()]
    } else {
        let prev = pieces(t.drop_last(), sep);
        if t.last() == sep {
            prev.push(Seq::empty())
        } else {
            prev.update(prev.len() - 1, prev.last().push(t.last()))
        }
    }
}

/// A line ended by a newline loses one carriage return before it.
pub open spec fn without_cr(line: Seq<char>) -> Seq<char> {
    if line.len() > 0 && line.last() == '\r' {
        line.drop_last()
    } else {
        line
    }
}

/// The lines of `t`: split at newlines, a carriage return before a newline
/// dropped, and no empty line after a final newline.
pub open spec fn text_lines(t: Seq<char>) -> Seq<Seq<char>> {
    let p = pieces(t, '\n');
    let ended = p.drop_last().map_values(|l: Seq<char>| without_cr(l));
    if p.last().len() == 0 {
        ended
    } else {
        ended.push(p.last())
    }
}

/// Whitespace that separates the fields of a template line.
pub open spec fn is_blank(c: char) -> bool {
    c == ' ' || c == '\t' || c == '\n' || c == '\r' || c == '\x0B' || c == '\x0C'
}

/// The maximal runs of non-whitespace characters of `t`, in order.
pub open spec fn words(t: Seq<char>) -> Seq<Seq<char>>
    decreases t.len(),
{
    if t.len() == 0 {
        Seq::empty()
    } else {
        let prev = words(t.drop_last());
        if is_blank(t.last()) {
            prev
        } else if t.len() >= 2 && !is_blank(t[t.len() - 2]) {
            prev.update(prev.len() - 1, prev.last().push(t.last()))
        } else {
            prev.push(seq![t.last()])
        }
    }
}

/// The two coordinate fields of a template line, the first two runs of
/// non-whitespace characters, if it has at least two.
pub open spec fn line_fields(line: Seq<char>) -> Option<(Seq<char>, Seq<char>)> {
    let f = words(line);
    if f.len() >= 2 {
        Some((f[0], f[1]))
    } else {
        None
    }
}

/// `parts` written one after another with `sep` between them.
pub open spec fn interleaved(parts: Seq<Seq<char>>, sep: char) -> Seq<char>
    decreases parts.len(),
{
    if parts.len() <= 1 {
        if parts.len() == 0 {
            Seq::empty()
        } else {
            parts[0]
        }
    } else {
        interleaved(parts.drop_last(), sep) + seq![sep] + parts.last()
    }
}

pub open spec fn views(v: Seq<String>) -> Seq<Seq<char>> {
    v.map_values(|s: String| s@)
}

proof fn lemma_pieces_nonempty(t: Seq<char>, sep: char)
    ensures
        pieces(t, sep).len() >= 1,
    decreases t.len(),
{
    if t.len() > 0 {
        lemma_pieces_nonempty(t.drop_last(), sep);
    }
}

/// Splits `text` at every `sep`.
pub fn split_at_char(text: &str, sep: char) -> (r: Vec<String>)
    ensures
        views(r@) == pieces(text@, sep),
{
    let n = text.unicode_len();
    let mut out: Vec<String> = Vec::new();
    let mut start: usize = 0;
    let mut i: usize = 0;
    proof {
        assert(text@.take(0) =~= Seq::<char>::empty());
        assert(views(out@).push(text@.subrange(0, 0)) =~= seq![Seq::<char>::empty()]);
    }
    while i < n
        invariant
            n == text@.len(),
            start <= i <= n,
            views(out@).push(text@.subrange(start as int, i as int)) == pieces(
                text@.take(i as int),
                sep,
            ),
        decreases n - i,
    {
        let c = text.get_char(i);
        proof {
            let t = text@.take(i as int + 1);
            assert(t.drop_last() =~= text@.take(i as int));
            assert(t.last() == c);
            lemma_pieces_nonempty(text@.take(i as int), sep);
        }
        let ghost before = views(out@);
        if c == sep {
            let piece = String::from_str(text.substring_char(start, i));
            out.push(piece);
            start = i + 1;
            proof {
                assert(views(out@) =~= before.push(piece@));
                assert(text@.subrange(start as int, i as int + 1) =~= Seq::<char>::empty());
                assert(pieces(text@.take(i as int + 1), sep) == pieces(text@.take(i as int), sep).push(
                    Seq::<char>::empty(),
                ));
                assert(views(out@).push(text@.subrange(start as int, i as int + 1)) =~= pieces(
                    text@.take(i as int + 1),
                    sep,
                ));
            }
        } else {
            proof {
                assert(text@.subrange(start as int, i as int + 1) =~= text@.subrange(
                    start as int,
                    i as int,
                ).push(c));
                assert(views(out@).push(text@.subrange(start as int, i as int + 1)) =~= pieces(
                    text@.take(i as int + 1),
                    sep,
                ));
            }
        }
        i = i + 1;
    }
    let last = String::from_str(text.substring_char(start, n));
    out.push(last);
    proof {
        assert(text@.take(n as int) =~= text@);
        assert(views(out@) =~= pieces(text@, sep));
    }
    out
}

/// Drops one carriage return at the end of `line`.
fn strip_cr(line: &str) -> (r: String)
    ensures
        r@ == without_cr(line@),
{
    let n = line.unicode_len();
    if n > 0 && line.get_char(n - 1) == '\r' {
        proof {
            assert(line@.subrange(0, n - 1) =~= line@.drop_last());
        }
        String::from_str(line.substring_char(0, n - 1))
    } else {
        String::from_str(line)
    }
}

/// The lines of a template file's text.
pub fn template_lines(text: &str) -> (r: Vec<String>)
    ensures
        views(r@) == text_lines(text@),
{
    let p = split_at_char(text, '\n');
    let ghost pv = pieces(text@, '\n');
    proof {
        lemma_pieces_nonempty(text@, '\n');
    }
    let count = p.len() - 1;
    let mut out: Vec<String> = Vec::new();
    let mut k: usize = 0;
    while k < count
        invariant
            count + 1 == p@.len(),
            views(p@) == pv,
            k <= count,
            views(out@) =~= pv.take(k as int).map_values(|l: Seq<char>| without_cr(l)),
        decreases count - k,
    {
        let line = strip_cr(p[k].as_str());
        let ghost before = views(out@);
        out.push(line);
        proof {
            assert(views(out@) =~= before.push(line@));
            assert(pv[k as int] == p@[k as int]@);
            assert(pv.take(k as int + 1) =~= pv.take(k as int).push(pv[k as int]));
        }
        k = k + 1;
    }
    proof {
        assert(pv.take(count as int) =~= pv.drop_last());
        assert(pv.last() == p@[count as int]@);
    }
    if p[count].as_str().unicode_len() > 0 {
        let ghost before = views(out@);
        out.push(p[count].clone());
        proof {
            assert(views(out@) =~= before.push(pv.last()));
        }
    }
    out
}

proof fn lemma_words_nonempty(t: Seq<char>)
    requires
        t.len() > 0,
        !is_blank(t.last()),
    ensures
        words(t).len() >= 1,
    decreases t.len(),
{
    if t.len() >= 2 && !is_blank(t[t.len() - 2]) {
        assert(t.drop_last().last() == t[t.len() - 2]);
        lemma_words_nonempty(t.drop_last());
    }
}

fn blank(c: char) -> (r: bool)
    ensures
        r == is_blank(c),
{
    c == ' ' || c == '\t' || c == '\n' || c == '\r' || c == '\x0B' || c == '\x0C'
}

/// The runs of non-whitespace characters of `text`.
pub fn split_words(text: &str) -> (r: Vec<String>)
    ensures
        views(r@) == words(text@),
{
    let n = text.unicode_len();
    let mut out: Vec<String> = Vec::new();
    let mut start: usize = 0;
    let mut in_word = false;
    let mut i: usize = 0;
    proof {
        assert(text@.take(0) =~= Seq::<char>::empty());
        assert(views(out@) =~= Seq::<Seq<char>>::empty());
    }
    while i < n
        invariant
            n == text@.len(),
            start <= i <= n,
            in_word <==> (i > 0 && !is_blank(text@[i - 1])),
            in_word ==> start < i,
            in_word ==> views(out@).push(text@.subrange(start as int, i as int)) == words(
                text@.take(i as int),
            ),
            !in_word ==> views(out@) == words(text@.take(i as int)),
        decreases n - i,
    {
        let c = text.get_char(i);
        let ghost before = views(out@);
        proof {
            let t = text@.take(i as int + 1);
            assert(t.drop_last() =~= text@.take(i as int));
            assert(t.last() == c);
            if i > 0 {
                assert(t[t.len() - 2] == text@[i - 1]);
            }
        }
        if blank(c) {
            if in_word {
                let w = String::from_str(text.substring_char(start, i));
                out.push(w);
                proof {
                    assert(views(out@) =~= before.push(w@));
                }
            }
            in_word = false;
        } else if in_word {
            proof {
                lemma_words_nonempty(text@.take(i as int));
                assert(text@.take(i as int).last() == text@[i - 1]);
                assert(text@.subrange(start as int, i as int + 1) =~= text@.subrange(
                    start as int,
                    i as int,
                ).push(c));
                assert(views(out@).push(text@.subrange(start as int, i as int + 1)) =~= words(
                    text@.take(i as int + 1),
                ));
            }
        } else {
            start = i;
            in_word = true;
            proof {
                assert(text@.subrange(i as int, i as int + 1) =~= seq![c]);
                assert(views(out@).push(text@.subrange(start as int, i as int + 1)) =~= words(
                    text@.take(i as int + 1),
                ));
            }
        }
        i = i + 1;
    }
    proof {
        assert(text@.take(n as int) =~= text@);
    }
    if in_word {
        let ghost before = views(out@);
        let w = String::from_str(text.substring_char(start, n));
        out.push(w);
        proof {
            assert(views(out@) =~= before.push(w@));
        }
    }
    out
}

/// The two coordinate fields of a template line, when it has two.
pub fn point_fields(line: &str) -> (r: Option<(String, String)>)
    ensures
        match (r, line_fields(line@)) {
            (Some((x, y)), Some((fx, fy))) => x@ == fx && y@ == fy,
            (None, None) => true,
            _ => false,
        },
{
    let f = split_words(line);
    if f.len() >= 2 {
        proof {
            assert(views(f@)[0] == f@[0]@);
            assert(views(f@)[1] == f@[1]@);
        }
        Some((f[0].clone(), f[1].clone()))
    } else {
        None
    }
}

pub open spec fn pair_views(v: Seq<(String, String)>) -> Seq<(Seq<char>, Seq<char>)> {
    v.map_values(|p: (String, String)| (p.0@, p.1@))
}

/// Every line of `t` has two coordinate fields.
pub open spec fn all_lines_have_fields(t: Seq<char>) -> bool {
    forall|i: int| 0 <= i < text_lines(t).len() ==> (#[trigger] line_fields(text_lines(t)[i])) is Some
}

/// The coordinate fields of every line of `t`.
pub open spec fn fields_of(t: Seq<char>) -> Seq<(Seq<char>, Seq<char>)> {
    text_lines(t).map_values(|l: Seq<char>| line_fields(l)->Some_0)
}

/// The text of a template whose lines hold the given coordinate fields.
pub open spec fn template_text(points: Seq<(Seq<char>, Seq<char>)>) -> Seq<char> {
    interleaved(points.map_values(|p: (Seq<char>, Seq<char>)| p.0 + seq![' '] + p.1), '\n')
}

/// The coordinate fields of each line of a template's text; `Err(k)` when
/// line `k` is the first one without two fields.
pub fn parse_template(text: &str) -> (r: Result<Vec<(String, String)>, usize>)
    ensures
        r is Ok <==> all_lines_have_fields(text@),
        r is Ok ==> pair_views(r->Ok_0@) == fields_of(text@),
        r is Err ==> ({
            let k = r->Err_0 as int;
            &&& 0 <= k < text_lines(text@).len()
            &&& line_fields(text_lines(text@)[k]) is None
            &&& forall|j: int| 0 <= j < k ==> (#[trigger] line_fields(text_lines(text@)[j])) is Some
        }),
{
    let lines = template_lines(text);
    let ghost tl = text_lines(text@);
    let mut out: Vec<(String, String)> = Vec::new();
    let mut k: usize = 0;
    while k < lines.len()
        invariant
            views(lines@) == tl,
            tl == text_lines(text@),
            k <= lines@.len(),
            forall|j: int| 0 <= j < k ==> (#[trigger] line_fields(tl[j])) is Some,
            pair_views(out@) =~= tl.take(k as int).map_values(
                |l: Seq<char>| line_fields(l)->Some_0,
            ),
        decreases lines@.len() - k,
    {
        proof {
            assert(tl[k as int] == lines@[k as int]@);
        }
        match point_fields(lines[k].as_str()) {
            None => {
                return Err(k);
            },
            Some(pair) => {
                let ghost before = pair_views(out@);
                out.push(pair);
                proof {
                    assert(pair_views(out@) =~= before.push((pair.0@, pair.1@)));
                    assert(tl.take(k as int + 1) =~= tl.take(k as int).push(tl[k as int]));
                }
            },
        }
        k = k + 1;
    }
    proof {
        assert(tl.take(k as int) =~= tl);
    }
    Ok(out)
}

/// The text of a template with the given coordinate fields, one point per
/// line and no newline after the last.
pub fn write_template(points: &Vec<(String, String)>) -> (r: String)
    ensures
        r@ == template_text(pair_views(points@)),
{
    let ghost lines = pair_views(points@).map_values(
        |p: (Seq<char>, Seq<char>)| p.0 + seq![' '] + p.1,
    );
    let mut r = String::new();
    let mut i: usize = 0;
    proof {
        reveal_strlit(" ");
        reveal_strlit("\n");
    }
    while i < points.len()
        invariant
            i <= points@.len(),
            lines.len() == points@.len(),
            lines == pair_views(points@).map_values(
                |p: (Seq<char>, Seq<char>)| p.0 + seq![' '] + p.1,
            ),
            " "@ == seq![' '],
            "\n"@ == seq!['\n'],
            r@ == interleaved(lines.take(i as int), '\n'),
        decreases points@.len() - i,
    {
        let ghost prev = r@;
        if i > 0 {
            r.append("\n");
        }
        r.append(points[i].0.as_str());
        r.append(" ");
        r.append(points[i].1.as_str());
        proof {
            let t = lines.take(i as int + 1);
            assert(t.drop_last() =~= lines.take(i as int));
            assert(t.last() == points@[i as int].0@ + seq![' '] + points@[i as int].1@);
            if i == 0 {
                assert(r@ =~= t[0]);
            } else {
                assert(r@ =~= prev + seq!['\n'] + t.last());
            }
        }
        i = i + 1;
    }
    proof {
        assert(lines.take(i as int) =~= lines);
    }
    r
}

/// A coordinate field that can be written to a template line and read back:
/// not empty, and free of whitespace.
pub open spec fn plain_field(f: Seq<char>) -> bool {
    &&& f.len() > 0
    &&& forall|k: int| 0 <= k < f.len() ==> !is_blank(#[trigger] f[k])
}

proof fn lemma_words_single(x: Seq<char>)
    requires
        plain_field(x),
    ensures
        words(x) == seq![x],
    decreases x.len(),
{
    if x.len() == 1 {
        assert(x.drop_last() =~= Seq::<char>::empty());
        assert(words(x.drop_last()) =~= Seq::<Seq<char>>::empty());
        assert(!is_blank(x[0]));
        assert(seq![x.last()] =~= x);
        assert(words(x) =~= seq![x]);
    } else {
        let init = x.drop_last();
        assert(forall|k: int| 0 <= k < init.len() ==> init[k] == x[k]);
        lemma_words_single(init);
        assert(!is_blank(x[x.len() - 2]));
        assert(!is_blank(x[x.len() - 1]));
        assert(init.push(x.last()) =~= x);
        assert(words(x) =~= seq![x]);
    }
}

proof fn lemma_words_concat(a: Seq<char>, b: Seq<char>)
    ensures
        words(a + seq![' '] + b) == words(a) + words(b),
    decreases b.len(),
{
    let t = a + seq![' '] + b;
    if b.len() == 0 {
        assert(t.drop_last() =~= a);
        assert(words(t) =~= words(a) + words(b));
    } else {
        let init = b.drop_last();
        lemma_words_concat(a, init);
        assert(t.drop_last() =~= a + seq![' '] + init);
        if b.len() >= 2 {
            assert(t[t.len() - 2] == b[b.len() - 2]);
            assert(init.last() == b[b.len() - 2]);
            if !is_blank(b[b.len() - 2]) && !is_blank(b.last()) {
                lemma_words_nonempty(init);
            }
        } else {
            assert(t[t.len() - 2] == ' ');
            assert(init =~= Seq::<char>::empty());
        }
        assert(words(t) =~= words(a) + words(b));
    }
}

proof fn lemma_pieces_without_sep(t: Seq<char>, sep: char)
    requires
        forall|k: int| 0 <= k < t.len() ==> #[trigger] t[k] != sep,
    ensures
        pieces(t, sep) == seq![t],
    decreases t.len(),
{
    if t.len() > 0 {
        lemma_pieces_without_sep(t.drop_last(), sep);
        assert(t.drop_last().push(t.last()) =~= t);
        assert(pieces(t, sep) =~= seq![t]);
    } else {
        assert(t =~= Seq::<char>::empty());
    }
}

proof fn lemma_pieces_concat(a: Seq<char>, b: Seq<char>, sep: char)
    ensures
        pieces(a + seq![sep] + b, sep) == pieces(a, sep) + pieces(b, sep),
    decreases b.len(),
{
    let t = a + seq![sep] + b;
    if b.len() == 0 {
        assert(t.drop_last() =~= a);
        assert(pieces(b, sep) =~= seq![Seq::<char>::empty()]);
        assert(pieces(t, sep) =~= pieces(a, sep) + pieces(b, sep));
    } else {
        lemma_pieces_concat(a, b.drop_last(), sep);
        lemma_pieces_nonempty(b.drop_last(), sep);
        assert(t.drop_last() =~= a + seq![sep] + b.drop_last());
        assert(pieces(t, sep) =~= pieces(a, sep) + pieces(b, sep));
    }
}

proof fn lemma_pieces_interleaved(parts: Seq<Seq<char>>, sep: char)
    requires
        parts.len() >= 1,
        forall|i: int, k: int|
            0 <= i < parts.len() && 0 <= k < parts[i].len() ==> #[trigger] parts[i][k] != sep,
    ensures
        pieces(interleaved(parts, sep), sep) == parts,
    decreases parts.len(),
{
    let last = parts.last();
    assert(forall|k: int| 0 <= k < last.len() ==> #[trigger] last[k] != sep) by {
        assert(forall|k: int| 0 <= k < last.len() ==> last[k] == parts[parts.len() - 1][k]);
    }
    lemma_pieces_without_sep(last, sep);
    if parts.len() == 1 {
        assert(seq![last] =~= parts);
    } else {
        let init = parts.drop_last();
        assert(forall|i: int, k: int|
            0 <= i < init.len() && 0 <= k < init[i].len() ==> #[trigger] init[i][k] != sep) by {
            assert(forall|i: int| 0 <= i < init.len() ==> init[i] == parts[i]);
        }
        lemma_pieces_interleaved(init, sep);
        lemma_pieces_concat(interleaved(init, sep), last, sep);
        assert(init + seq![last] =~= parts);
    }
}

proof fn lemma_line_fields(x: Seq<char>, y: Seq<char>)
    requires
        plain_field(x),
        plain_field(y),
    ensures
        line_fields(x + seq![' '] + y) == Some((x, y)),
{
    lemma_words_single(x);
    lemma_words_single(y);
    lemma_words_concat(x, y);
    assert(words(x + seq![' '] + y) =~= seq![x, y]);
}

/// Writing a template and reading it back gives the same coordinate
/// fields, as long as every field is non-empty and holds no whitespace.
pub proof fn lemma_template_round_trip(points: Seq<(Seq<char>, Seq<char>)>)
    requires
        forall|i: int| 0 <= i < points.len() ==> plain_field(#[trigger] points[i].0) && plain_field(points[i].1),
    ensures
        all_lines_have_fields(template_text(points)),
        fields_of(template_text(points)) == points,
{
    let lines = points.map_values(|p: (Seq<char>, Seq<char>)| p.0 + seq![' '] + p.1);
    let t = template_text(points);
    assert forall|i: int| 0 <= i < lines.len() implies line_fields(#[trigger] lines[i]) == Some(points[i]) by {
        lemma_line_fields(points[i].0, points[i].1);
    }
    if points.len() == 0 {
        assert(t =~= Seq::<char>::empty());
        assert(text_lines(t) =~= Seq::<Seq<char>>::empty());
        assert(fields_of(t) =~= points);
    } else {
        assert forall|i: int, k: int|
            0 <= i < lines.len() && 0 <= k < lines[i].len() implies #[trigger] lines[i][k] != '\n' by {
            let x = points[i].0;
            let y = points[i].1;
            if k < x.len() {
                assert(lines[i][k] == x[k]);
                assert(!is_blank(x[k]));
            } else if k > x.len() {
                assert(lines[i][k] == y[k - x.len() - 1]);
                assert(!is_blank(y[k - x.len() - 1]));
            }
        }
        lemma_pieces_interleaved(lines, '\n');
        assert forall|i: int| 0 <= i < lines.len() - 1 implies without_cr(#[trigger] lines[i]) == lines[i] by {
            let y = points[i].1;
            let l = lines[i];
            assert(l.last() == y[y.len() - 1]);
            assert(!is_blank(y[y.len() - 1]));
        }
        assert(lines.last().len() > 0);
        assert(text_lines(t) =~= lines);
        assert(fields_of(t) =~= points);
    }
}

} // verus!
