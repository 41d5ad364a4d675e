//! The slide-file grammar.
//!
//! A slide file is read line by line. Paragraphs (runs of non-empty lines)
//! are slides; lines starting with `#` are comments and are dropped, even
//! inside a paragraph; a paragraph whose first remaining line starts with `@`
//! is an image slide; a leading `\` is removed and takes away the special
//! meaning of `@` and `#`. A file without any slide is an error.
use vstd::prelude::*;

verus! {

broadcast use vstd::seq_lib::group_seq_properties;

/// One slide: its text lines, and the image file named after a leading `@`
/// on its first line. An empty name means that the `@` stood alone, and the
/// slide is shown as text.
#[derive(Debug, PartialEq, Eq)]
pub struct Slide {
    pub lines: Vec<String>,
    pub embed: Option<String>,
}

/// The mathematical content of a slide.
pub struct SlideView {
    pub lines: Seq<Seq<char>>,
    pub embed: Option<Seq<char>>,
}

pub open spec fn string_seq_view(v: Seq<String>) -> Seq<Seq<char>> {
    v.map_values(|s: String| s@)
}

pub open spec fn opt_string_view(o: Option<String>) -> Option<Seq<char>> {
    match o {
        Some(s) => Some(s@),
        None => None,
    }
}

impl View for Slide {
    type V = SlideView;

    open spec fn view(&self) -> SlideView {
        SlideView { lines: string_seq_view(self.lines@), embed: opt_string_view(self.embed) }
    }
}

pub open spec fn slides_view(v: Seq<Slide>) -> Seq<SlideView> {
    v.map_values(|s: Slide| s@)
}

/// `s` cut at every element for which `sep` holds (the separators are
/// dropped): as many pieces as there are separators, plus one.
pub open spec fn split_by<A>(s: Seq<A>, sep: spec_fn(A) -> bool) -> Seq<Seq<A>>
    decreases s.len(),
{
    if s.len() == 0 {
        seq![Seq::empty()]
    } else {
        let p = split_by(s.drop_last(), sep);
        if sep(s.last()) {
            p.push(Seq::empty())
        } else {
            p.update(p.len() - 1, p.last().push(s.last()))
        }
    }
}

pub proof fn lemma_split_by_len<A>(s: Seq<A>, sep: spec_fn(A) -> bool)
    ensures
        split_by(s, sep).len() >= 1,
    decreases s.len(),
{
    if s.len() > 0 {
        lemma_split_by_len(s.drop_last(), sep);
    }
}

pub proof fn lemma_split_by_push<A>(s: Seq<A>, sep: spec_fn(A) -> bool, x: A)
    ensures
        split_by(s, sep).len() >= 1,
        split_by(s.push(x), sep) == ({
            let p = split_by(s, sep);
            if sep(x) {
                p.push(Seq::empty())
            } else {
                p.update(p.len() - 1, p.last().push(x))
            }
        }),
{
    lemma_split_by_len(s, sep);
    assert(s.push(x).drop_last() =~= s);
}

/// A trailing carriage return removed.
pub open spec fn strip_cr(l: Seq<char>) -> Seq<char> {
    if l.len() > 0 && l.last() == '\r' {
        l.drop_last()
    } else {
        l
    }
}

pub open spec fn is_newline(c: char) -> bool {
    c == '\n'
}

/// The lines of a text as a buffered reader yields them (split at `\n`, a
/// final line ending optional, a `\r` before a `\n` dropped), each with one
/// more trailing `\r` removed.
pub open spec fn text_lines(t: Seq<char>) -> Seq<Seq<char>> {
    let pieces = split_by(t, |c: char| is_newline(c));
    let ended = pieces.drop_last().map_values(|p: Seq<char>| strip_cr(strip_cr(p)));
    if pieces.last().len() == 0 {
        ended
    } else {
        ended.push(strip_cr(pieces.last()))
    }
}

pub open spec fn is_blank(l: Seq<char>) -> bool {
    l.len() == 0
}

pub open spec fn is_comment(l: Seq<char>) -> bool {
    l.len() > 0 && l[0] == '#'
}

/// A leading backslash removed.
pub open spec fn unescape(l: Seq<char>) -> Seq<char> {
    if l.len() > 0 && l[0] == '\\' {
        l.drop_first()
    } else {
        l
    }
}

/// The image name after a leading `@`.
pub open spec fn embed_of(l: Seq<char>) -> Option<Seq<char>> {
    if l.len() > 0 && l[0] == '@' {
        Some(l.drop_first())
    } else {
        None
    }
}

/// The paragraphs of a list of lines: the runs between blank lines
/// (empty runs included).
pub open spec fn paragraphs(ls: Seq<Seq<char>>) -> Seq<Seq<Seq<char>>> {
    split_by(ls, |l: Seq<char>| is_blank(l))
}

/// The lines of a paragraph that are not comments.
pub open spec fn content(p: Seq<Seq<char>>) -> Seq<Seq<char>> {
    p.filter(|l: Seq<char>| !is_comment(l))
}

pub open spec fn has_content(p: Seq<Seq<char>>) -> bool {
    content(p).len() > 0
}

/// The image name of a paragraph: that of its first non-comment line.
pub open spec fn paragraph_embed(p: Seq<Seq<char>>) -> Option<Seq<char>> {
    if content(p).len() > 0 {
        embed_of(content(p)[0])
    } else {
        None
    }
}

/// Each line with its leading backslash removed.
pub open spec fn unescaped(ls: Seq<Seq<char>>) -> Seq<Seq<char>> {
    ls.map_values(|l: Seq<char>| unescape(l))
}

/// The slide that a paragraph makes.
pub open spec fn slide_of(p: Seq<Seq<char>>) -> SlideView {
    SlideView {
        lines: unescaped(content(p)),
        embed: paragraph_embed(p),
    }
}

/// The slides of a list of lines: one per paragraph that holds a
/// non-comment line.
pub open spec fn slides_of_lines(ls: Seq<Seq<char>>) -> Seq<SlideView> {
    slides_of_paragraphs(paragraphs(ls))
}

/// The slides of a list of paragraphs: one per paragraph that holds a
/// non-comment line.
pub open spec fn slides_of_paragraphs(ps: Seq<Seq<Seq<char>>>) -> Seq<SlideView> {
    ps.filter(|p: Seq<Seq<char>>| has_content(p)).map_values(|p: Seq<Seq<char>>| slide_of(p))
}

/// The slides of a slide file.
pub open spec fn spec_load(t: Seq<char>) -> Seq<SlideView> {
    slides_of_lines(text_lines(t))
}

/// Calls `FromIterator<char> for String` (`collect`): the string holds
/// exactly the given characters, in order.
#[verifier::external_body]
fn string_from_chars(v: &[char]) -> (s: String)
    ensures
        s@ == v@,
{
    v.iter().collect()
}

fn chars_of(s: &str) -> (v: Vec<char>)
    ensures
        v@ == s@,
{
    broadcast use vstd::string::group_string_axioms;

    let mut v: Vec<char> = Vec::new();
    for c in it: s.chars()
        invariant
            v@ == it.seq().take(it.index()),
    {
        v.push(c);
    }
    v
}


pub open spec fn chars_view(v: Seq<Vec<char>>) -> Seq<Seq<char>> {
    v.map_values(|l: Vec<char>| l@)
}

fn pop_cr(l: &mut Vec<char>)
    ensures
        final(l)@ == strip_cr(old(l)@),
{
    let n = l.len();
    if n > 0 && l[n - 1] == '\r' {
        l.pop();
    }
}

/// Splits a text into its lines (see `text_lines`).
fn split_lines(t: &Vec<char>) -> (ls: Vec<Vec<char>>)
    ensures
        chars_view(ls@) == text_lines(t@),
{
    let ghost sep = |c: char| is_newline(c);
    let ghost f = |p: Seq<char>| strip_cr(strip_cr(p));
    let mut done: Vec<Vec<char>> = Vec::new();
    let mut cur: Vec<char> = Vec::new();
    let mut i: usize = 0;
    proof {
        assert(t@.take(0) =~= Seq::<char>::empty());
    }
    while i < t.len()
        invariant
            i <= t.len(),
            sep == (|c: char| is_newline(c)),
            f == (|p: Seq<char>| strip_cr(strip_cr(p))),
            split_by(t@.take(i as int), sep).len() >= 1,
            chars_view(done@) == split_by(t@.take(i as int), sep).drop_last().map_values(f),
            cur@ == split_by(t@.take(i as int), sep).last(),
        decreases t.len() - i,
    {
        let c = t[i];
        let ghost pre = t@.take(i as int);
        proof {
            assert(t@.take(i + 1) =~= pre.push(c));
            lemma_split_by_push(pre, sep, c);
        }
        if c == '\n' {
            let ghost old_done = done@;
            pop_cr(&mut cur);
            pop_cr(&mut cur);
            done.push(cur);
            cur = Vec::new();
            proof {
                let p = split_by(pre, sep);
                assert(chars_view(old_done) == p.drop_last().map_values(f));
                assert(done@ == old_done.push(done@.last()));
                assert(done@.last()@ == f(p.last()));
                assert(chars_view(done@) =~= chars_view(old_done).push(f(p.last())));
                assert(p.push(Seq::empty()).drop_last() =~= p);
                assert(p =~= p.drop_last().push(p.last()));
                assert(p.map_values(f) =~= p.drop_last().map_values(f).push(f(p.last())));
            }
        } else {
            cur.push(c);
            proof {
                let p = split_by(pre, sep);
                assert(p.update(p.len() - 1, p.last().push(c)).drop_last() =~= p.drop_last());
            }
        }
        i += 1;
    }
    proof {
        assert(t@.take(t@.len() as int) =~= t@);
        assert(sep =~= |c: char| is_newline(c));
        assert(f =~= |p: Seq<char>| strip_cr(strip_cr(p)));
    }
    if cur.len() > 0 {
        pop_cr(&mut cur);
        done.push(cur);
    }
    done
}


proof fn lemma_paragraphs_push(ls: Seq<Seq<char>>, l: Seq<char>)
    ensures
        paragraphs(ls).len() >= 1,
        paragraphs(ls.push(l)) == ({
            let p = paragraphs(ls);
            if is_blank(l) {
                p.push(Seq::empty())
            } else {
                p.update(p.len() - 1, p.last().push(l))
            }
        }),
{
    lemma_split_by_push(ls, |l: Seq<char>| is_blank(l), l);
}

proof fn lemma_content_push(p: Seq<Seq<char>>, l: Seq<char>)
    ensures
        content(p.push(l)) == if is_comment(l) {
            content(p)
        } else {
            content(p).push(l)
        },
{
    reveal(Seq::filter);
    assert(p.push(l).drop_last() =~= p);
}

proof fn lemma_slides_of_paragraphs_push(ps: Seq<Seq<Seq<char>>>, p: Seq<Seq<char>>)
    ensures
        slides_of_paragraphs(ps.push(p)) == if has_content(p) {
            slides_of_paragraphs(ps).push(slide_of(p))
        } else {
            slides_of_paragraphs(ps)
        },
{
    reveal(Seq::filter);
    assert(ps.push(p).drop_last() =~= ps);
    let pred = |p: Seq<Seq<char>>| has_content(p);
    let f = |p: Seq<Seq<char>>| slide_of(p);
    if has_content(p) {
        assert(ps.push(p).filter(pred) == ps.filter(pred).push(p));
        assert(ps.filter(pred).push(p).map_values(f) =~= ps.filter(pred).map_values(f).push(f(p)));
    }
}

/// The characters of `l` from position `from` on, as a string.
fn string_from(l: &Vec<char>, from: usize) -> (s: String)
    requires
        from <= l.len(),
    ensures
        s@ == l@.subrange(from as int, l@.len() as int),
{
    string_from_chars(vstd::slice::slice_subrange(l.as_slice(), from, l.len()))
}

/// Groups lines into slides (see `slides_of_lines`).
fn parse_lines(ls: &Vec<Vec<char>>) -> (slides: Vec<Slide>)
    ensures
        slides_view(slides@) == slides_of_lines(chars_view(ls@)),
{
    let ghost lv = chars_view(ls@);
    let mut slides: Vec<Slide> = Vec::new();
    let mut cur_lines: Vec<String> = Vec::new();
    let mut cur_embed: Option<String> = None;
    let mut j: usize = 0;
    proof {
        assert(lv.take(0) =~= Seq::<Seq<char>>::empty());
        reveal(Seq::filter);
        assert(content(Seq::empty()) =~= Seq::<Seq<char>>::empty());
        assert(slides_of_paragraphs(Seq::empty()) =~= Seq::<SlideView>::empty());
    }
    while j < ls.len()
        invariant
            j <= ls.len(),
            lv == chars_view(ls@),
            paragraphs(lv.take(j as int)).len() >= 1,
            slides_view(slides@) == slides_of_paragraphs(
                paragraphs(lv.take(j as int)).drop_last(),
            ),
            string_seq_view(cur_lines@) == unescaped(content(paragraphs(lv.take(j as int)).last())),
            opt_string_view(cur_embed) == paragraph_embed(paragraphs(lv.take(j as int)).last()),
        decreases ls.len() - j,
    {
        let l = &ls[j];
        let ghost pre = lv.take(j as int);
        let ghost ps = paragraphs(pre);
        let ghost last = ps.last();
        proof {
            assert(lv.take(j + 1) =~= pre.push(l@));
            lemma_paragraphs_push(pre, l@);
            lemma_content_push(last, l@);
        }
        if l.len() == 0 {
            if cur_lines.len() > 0 {
                let ghost done = slides@;
                slides.push(Slide { lines: cur_lines, embed: cur_embed });
                proof {
                    assert(slides_view(slides@) =~= slides_view(done).push(slide_of(last)));
                }
            }
            cur_lines = Vec::new();
            cur_embed = None;
            proof {
                lemma_slides_of_paragraphs_push(ps.drop_last(), last);
                assert(ps.drop_last().push(last) =~= ps);
                assert(ps.push(Seq::empty()).drop_last() =~= ps);
                reveal(Seq::filter);
                assert(content(Seq::empty()) =~= Seq::<Seq<char>>::empty());
                assert(string_seq_view(cur_lines@) =~= unescaped(Seq::empty()));
            }
        } else {
            proof {
                assert(ps.update(ps.len() - 1, last.push(l@)).drop_last() =~= ps.drop_last());
            }
            if l[0] != '#' {
                let ghost old_lines = cur_lines@;
                if cur_lines.len() == 0 && l[0] == '@' {
                    cur_embed = Some(string_from(l, 1));
                    proof {
                        assert(l@.subrange(1, l@.len() as int) =~= l@.drop_first());
                    }
                }
                let text = if l[0] == '\\' {
                    string_from(l, 1)
                } else {
                    string_from(l, 0)
                };
                proof {
                    assert(l@.subrange(1, l@.len() as int) =~= l@.drop_first());
                    assert(l@.subrange(0, l@.len() as int) =~= l@);
                }
                cur_lines.push(text);
                proof {
                    assert(string_seq_view(cur_lines@) =~= string_seq_view(old_lines).push(unescape(l@)));
                    assert(unescaped(content(last).push(l@)) =~= unescaped(content(last)).push(unescape(l@)));
                }
            }
        }
        j += 1;
    }
    proof {
        assert(lv.take(ls.len() as int) =~= lv);
    }
    let ghost ps = paragraphs(lv);
    if cur_lines.len() > 0 {
        let ghost done = slides@;
        slides.push(Slide { lines: cur_lines, embed: cur_embed });
        proof {
            assert(slides_view(slides@) =~= slides_view(done).push(slide_of(ps.last())));
        }
    }
    proof {
        lemma_slides_of_paragraphs_push(ps.drop_last(), ps.last());
        assert(ps.drop_last().push(ps.last()) =~= ps);
    }
    slides
}

/// Reads a slide file: one slide per paragraph, comments dropped, `@` image
/// slides and `\` escapes recognized (see `spec_load`). A file without any
/// slide is an error.
pub fn load(input: &str) -> (r: Result<Vec<Slide>, String>)
    ensures
        match r {
            Ok(v) => spec_load(input@).len() > 0 && slides_view(v@) == spec_load(input@),
            Err(e) => spec_load(input@).len() == 0 && e@ == "rent: no slides in file"@,
        },
{
    let chars = chars_of(input);
    let lines = split_lines(&chars);
    let slides = parse_lines(&lines);
    if slides.len() == 0 {
        Err("rent: no slides in file".to_owned())
    } else {
        Ok(slides)
    }
}


impl Slide {
    /// The image file of an image slide: the name after the `@`, unless it
    /// is empty (a lone `@` makes a text slide).
    pub fn image_file(&self) -> (f: Option<&str>)
        ensures
            match self@.embed {
                Some(e) => if e.len() > 0 {
                    f matches Some(name) && name@ == e
                } else {
                    f is None
                },
                None => f is None,
            },
    {
        match &self.embed {
            Some(e) => {
                let name = e.as_str();
                if name.is_empty() {
                    None
                } else {
                    Some(name)
                }
            },
            None => None,
        }
    }
}

/// What every slide looks like: it has at least one line, and an image
/// slide's first line is `@` followed by the image name.
pub open spec fn well_formed_slide(s: SlideView) -> bool {
    &&& s.lines.len() > 0
    &&& (s.embed matches Some(e) ==> s.lines[0] == seq!['@'] + e)
}

proof fn lemma_slide_of_well_formed(p: Seq<Seq<char>>)
    requires
        has_content(p),
    ensures
        well_formed_slide(slide_of(p)),
{
    let c = content(p);
    assert(unescaped(c).len() == c.len());
    if let Some(e) = paragraph_embed(p) {
        assert(c[0] =~= seq!['@'] + e);
        assert(unescaped(c)[0] == unescape(c[0]));
    }
}

proof fn lemma_slides_of_paragraphs_well_formed(ps: Seq<Seq<Seq<char>>>)
    ensures
        forall|i: int|
            0 <= i < slides_of_paragraphs(ps).len() ==> well_formed_slide(
                #[trigger] slides_of_paragraphs(ps)[i],
            ),
    decreases ps.len(),
{
    if ps.len() == 0 {
        reveal(Seq::filter);
        assert(slides_of_paragraphs(ps).len() == 0);
    } else {
        let q = ps.drop_last();
        lemma_slides_of_paragraphs_well_formed(q);
        lemma_slides_of_paragraphs_push(q, ps.last());
        assert(q.push(ps.last()) =~= ps);
        if has_content(ps.last()) {
            lemma_slide_of_well_formed(ps.last());
        }
    }
}

/// No slide is empty: every slide has at least one line (blank lines and
/// comment-only paragraphs never make a slide), and an image slide keeps
/// its `@name` line as its first line.
pub proof fn lemma_slides_well_formed(t: Seq<char>)
    ensures
        forall|i: int| 0 <= i < spec_load(t).len() ==> well_formed_slide(#[trigger] spec_load(t)[i]),
{
    lemma_slides_of_paragraphs_well_formed(paragraphs(text_lines(t)));
}

/// Each paragraph without its comment lines.
pub open spec fn contents(ps: Seq<Seq<Seq<char>>>) -> Seq<Seq<Seq<char>>> {
    ps.map_values(|p: Seq<Seq<char>>| content(p))
}

proof fn lemma_content_idempotent(p: Seq<Seq<char>>)
    ensures
        content(content(p)) == content(p),
    decreases p.len(),
{
    if p.len() == 0 {
        reveal(Seq::filter);
        assert(content(p) =~= p);
    } else {
        let q = p.drop_last();
        let l = p.last();
        assert(q.push(l) =~= p);
        lemma_content_idempotent(q);
        lemma_content_push(q, l);
        if !is_comment(l) {
            lemma_content_push(content(q), l);
        }
    }
}

proof fn lemma_paragraphs_without_comments(ls: Seq<Seq<char>>)
    ensures
        paragraphs(content(ls)) == contents(paragraphs(ls)),
    decreases ls.len(),
{
    if ls.len() == 0 {
        reveal(Seq::filter);
        assert(content(ls) =~= ls);
        assert(content(Seq::<Seq<char>>::empty()) =~= Seq::<Seq<char>>::empty());
        assert(contents(paragraphs(ls)) =~= seq![Seq::<Seq<char>>::empty()]);
    } else {
        let q = ls.drop_last();
        let l = ls.last();
        assert(q.push(l) =~= ls);
        lemma_paragraphs_without_comments(q);
        lemma_content_push(q, l);
        lemma_paragraphs_push(q, l);
        let ps = paragraphs(q);
        if is_comment(l) {
            lemma_content_push(ps.last(), l);
            assert(contents(paragraphs(ls)) =~= contents(ps));
        } else {
            lemma_paragraphs_push(content(q), l);
            if is_blank(l) {
                reveal(Seq::filter);
                assert(content(Seq::<Seq<char>>::empty()) =~= Seq::<Seq<char>>::empty());
                assert(contents(paragraphs(ls)) =~= contents(ps).push(Seq::empty()));
            } else {
                lemma_content_push(ps.last(), l);
                assert(contents(paragraphs(ls)) =~= contents(ps).update(
                    ps.len() - 1,
                    content(ps.last()).push(l),
                ));
            }
        }
    }
}

proof fn lemma_slides_of_contents(ps: Seq<Seq<Seq<char>>>)
    ensures
        slides_of_paragraphs(contents(ps)) == slides_of_paragraphs(ps),
    decreases ps.len(),
{
    if ps.len() == 0 {
        assert(contents(ps) =~= ps);
    } else {
        let q = ps.drop_last();
        let p = ps.last();
        assert(q.push(p) =~= ps);
        assert(contents(ps) =~= contents(q).push(content(p)));
        lemma_slides_of_contents(q);
        lemma_slides_of_paragraphs_push(q, p);
        lemma_slides_of_paragraphs_push(contents(q), content(p));
        lemma_content_idempotent(p);
    }
}

/// Comment lines are ignored: dropping every line that starts with `#`
/// from a file's lines leaves its slides unchanged, wherever the comments
/// stand (between paragraphs or inside one).
pub proof fn lemma_comments_ignored(ls: Seq<Seq<char>>)
    ensures
        slides_of_lines(content(ls)) == slides_of_lines(ls),
{
    lemma_paragraphs_without_comments(ls);
    lemma_slides_of_contents(paragraphs(ls));
}


/// A backslash takes away the special meaning of a line's start: a line
/// `\` followed by `l` is never blank, a comment or an image line, and is
/// shown as `l`.
pub proof fn lemma_escape(l: Seq<char>)
    ensures
        ({
            let e = seq!['\\'] + l;
            &&& !is_blank(e)
            &&& !is_comment(e)
            &&& embed_of(e) is None
            &&& unescape(e) == l
        }),
{
    let e = seq!['\\'] + l;
    assert(e[0] == '\\');
    assert(e.drop_first() =~= l);
}


/// Whether some line is neither blank nor a comment.
pub open spec fn has_content_line(ls: Seq<Seq<char>>) -> bool {
    exists|i: int| 0 <= i < ls.len() && !is_blank(#[trigger] ls[i]) && !is_comment(ls[i])
}

proof fn lemma_slides_exist(ls: Seq<Seq<char>>)
    ensures
        slides_of_lines(ls).len() > 0 <==> has_content_line(ls),
    decreases ls.len(),
{
    if ls.len() == 0 {
        reveal(Seq::filter);
        assert(content(Seq::<Seq<char>>::empty()) =~= Seq::<Seq<char>>::empty());
        let ps = paragraphs(ls);
        assert(ps =~= seq![Seq::<Seq<char>>::empty()]);
        lemma_slides_of_paragraphs_push(Seq::empty(), Seq::empty());
        assert(Seq::<Seq<Seq<char>>>::empty().push(Seq::empty()) =~= ps);
        assert(slides_of_paragraphs(Seq::<Seq<Seq<char>>>::empty()).len() == 0);
    } else {
        let q = ls.drop_last();
        let l = ls.last();
        assert(q.push(l) =~= ls);
        lemma_slides_exist(q);
        lemma_paragraphs_push(q, l);
        let ps = paragraphs(q);
        let p0 = ps.drop_last();
        let last = ps.last();
        assert(p0.push(last) =~= ps);
        lemma_slides_of_paragraphs_push(p0, last);
        if has_content_line(ls) {
            let i = choose|i: int| 0 <= i < ls.len() && !is_blank(#[trigger] ls[i]) && !is_comment(ls[i]);
            if i < q.len() {
                assert(q[i] == ls[i]);
                assert(has_content_line(q));
            }
        }
        if has_content_line(q) {
            let i = choose|i: int| 0 <= i < q.len() && !is_blank(#[trigger] q[i]) && !is_comment(q[i]);
            assert(ls[i] == q[i]);
            assert(has_content_line(ls));
        }
        if is_blank(l) {
            reveal(Seq::filter);
            assert(content(Seq::<Seq<char>>::empty()) =~= Seq::<Seq<char>>::empty());
            lemma_slides_of_paragraphs_push(ps, Seq::empty());
        } else {
            let last2 = last.push(l);
            assert(paragraphs(ls) =~= p0.push(last2));
            lemma_slides_of_paragraphs_push(p0, last2);
            lemma_content_push(last, l);
            if !is_comment(l) {
                assert(ls[ls.len() - 1] == l);
                assert(has_content_line(ls));
            }
        }
    }
}

/// A slide file loads exactly when some line of it is neither blank nor a
/// comment; otherwise `load` reports that there are no slides.
pub proof fn lemma_load_ok(t: Seq<char>)
    ensures
        spec_load(t).len() > 0 <==> has_content_line(text_lines(t)),
{
    lemma_slides_exist(text_lines(t));
}

proof fn lemma_content_first(p: Seq<Seq<char>>)
    requires
        p.len() > 0,
        !is_comment(p[0]),
    ensures
        content(p).len() > 0,
        content(p)[0] == p[0],
    decreases p.len(),
{
    let q = p.drop_last();
    assert(q.push(p.last()) =~= p);
    lemma_content_push(q, p.last());
    if q.len() == 0 {
        reveal(Seq::filter);
        assert(content(q) =~= Seq::<Seq<char>>::empty());
    } else {
        assert(q[0] == p[0]);
        lemma_content_first(q);
    }
}

proof fn lemma_slides_of_paragraphs_first(ps: Seq<Seq<Seq<char>>>)
    requires
        ps.len() > 0,
        has_content(ps[0]),
    ensures
        slides_of_paragraphs(ps).len() > 0,
        slides_of_paragraphs(ps)[0] == slide_of(ps[0]),
    decreases ps.len(),
{
    let q = ps.drop_last();
    assert(q.push(ps.last()) =~= ps);
    lemma_slides_of_paragraphs_push(q, ps.last());
    if q.len() == 0 {
        reveal(Seq::filter);
        assert(slides_of_paragraphs(q) =~= Seq::<SlideView>::empty());
    } else {
        assert(q[0] == ps[0]);
        lemma_slides_of_paragraphs_first(q);
    }
}

proof fn lemma_slides_of_paragraphs_add(a: Seq<Seq<Seq<char>>>, b: Seq<Seq<Seq<char>>>)
    ensures
        slides_of_paragraphs(a + b) == slides_of_paragraphs(a) + slides_of_paragraphs(b),
    decreases b.len(),
{
    if b.len() == 0 {
        assert(a + b =~= a);
        reveal(Seq::filter);
        assert(slides_of_paragraphs(b) =~= Seq::<SlideView>::empty());
        assert(slides_of_paragraphs(a) + slides_of_paragraphs(b) =~= slides_of_paragraphs(a));
    } else {
        let q = b.drop_last();
        let p = b.last();
        assert(q.push(p) =~= b);
        assert((a + q).push(p) =~= a + b);
        lemma_slides_of_paragraphs_add(a, q);
        lemma_slides_of_paragraphs_push(a + q, p);
        lemma_slides_of_paragraphs_push(q, p);
        if has_content(p) {
            assert(slides_of_paragraphs(a) + slides_of_paragraphs(q).push(slide_of(p)) =~= (
            slides_of_paragraphs(a) + slides_of_paragraphs(q)).push(slide_of(p)));
        }
    }
}

/// The paragraphs of `pre`, the line `l` and then `rest`, where `pre`'s
/// last paragraph is empty: those of `pre` before it stay, and the next
/// paragraph opens with `l`.
proof fn lemma_paragraph_opens(pre: Seq<Seq<char>>, l: Seq<char>, rest: Seq<Seq<char>>)
    requires
        paragraphs(pre).len() >= 1,
        paragraphs(pre).last().len() == 0,
        l.len() > 0,
    ensures
        ({
            let a = paragraphs(pre).drop_last();
            let ps = paragraphs(pre.push(l) + rest);
            &&& ps.len() > a.len()
            &&& ps.subrange(0, a.len() as int) == a
            &&& ps[a.len() as int].len() > 0
            &&& ps[a.len() as int][0] == l
        }),
    decreases rest.len(),
{
    let a = paragraphs(pre).drop_last();
    if rest.len() == 0 {
        assert(pre.push(l) + rest =~= pre.push(l));
        lemma_paragraphs_push(pre, l);
        let ps = paragraphs(pre.push(l));
        assert(ps.subrange(0, a.len() as int) =~= a);
    } else {
        let r = rest.drop_last();
        let x = rest.last();
        lemma_paragraph_opens(pre, l, r);
        assert((pre.push(l) + r).push(x) =~= pre.push(l) + rest);
        lemma_paragraphs_push(pre.push(l) + r, x);
        let ps = paragraphs(pre.push(l) + rest);
        let ps0 = paragraphs(pre.push(l) + r);
        assert(ps.subrange(0, a.len() as int) =~= ps0.subrange(0, a.len() as int));
    }
}

/// An image slide is recognized whatever its name holds: after any lines
/// whose last one is blank (or none at all), a line `@` followed by any name
/// `n` opens a slide that shows the image `n` and has `@n` as its first
/// line; the slides before it are those of the lines before it, and the
/// lines after it do not change any of this.
pub proof fn lemma_image_slide(pre: Seq<Seq<char>>, n: Seq<char>, rest: Seq<Seq<char>>)
    requires
        pre.len() == 0 || pre.last().len() == 0,
    ensures
        ({
            let s = slides_of_lines(pre + seq![seq!['@'] + n] + rest);
            let k = slides_of_lines(pre).len();
            &&& s.len() > k
            &&& s.take(k as int) == slides_of_lines(pre)
            &&& s[k as int].embed == Some(n)
            &&& s[k as int].lines[0] == seq!['@'] + n
        }),
{
    let l = seq!['@'] + n;
    assert(l[0] == '@');
    assert(l.drop_first() =~= n);
    let ps0 = paragraphs(pre);
    if pre.len() == 0 {
        assert(ps0 =~= seq![Seq::<Seq<char>>::empty()]);
    } else {
        assert(pre.drop_last().push(pre.last()) =~= pre);
        lemma_paragraphs_push(pre.drop_last(), pre.last());
    }
    lemma_paragraphs_push(pre, l);
    let a = ps0.drop_last();
    lemma_paragraph_opens(pre, l, rest);
    assert(pre + seq![l] + rest =~= pre.push(l) + rest);
    let ps = paragraphs(pre.push(l) + rest);
    let q = ps.subrange(a.len() as int, ps.len() as int);
    assert(ps =~= a + q);
    lemma_slides_of_paragraphs_add(a, q);
    assert(q[0] == ps[a.len() as int]);
    lemma_content_first(q[0]);
    lemma_slides_of_paragraphs_first(q);
    reveal(Seq::filter);
    assert(content(Seq::<Seq<char>>::empty()) =~= Seq::<Seq<char>>::empty());
    lemma_slides_of_paragraphs_push(a, Seq::empty());
    assert(a.push(ps0.last()) =~= ps0);
    let s = slides_of_paragraphs(a) + slides_of_paragraphs(q);
    assert(s.take(slides_of_paragraphs(a).len() as int) =~= slides_of_paragraphs(a));
    assert(unescaped(content(q[0]))[0] == unescape(l));
}

/// Exactly one trailing carriage return is removed, and a line without one
/// is kept.
pub proof fn lemma_strip_cr(l: Seq<char>)
    ensures
        strip_cr(l.push('\r')) == l,
        (l.len() == 0 || l.last() != '\r') ==> strip_cr(l) == l,
{
    assert(l.push('\r').drop_last() =~= l);
}

} // verus!
