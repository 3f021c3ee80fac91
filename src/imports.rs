//! The import expander: inlines `import <path>` lines, depth first, and
//! detects cycles. Reading files is left to the caller: `expand` asks for
//! the next imported file and `enter` hands its text in.
use vstd::prelude::*;
use crate::error::DeckError;
use crate::lexer::line_end;
use crate::text::{chars_of, push_char, push_str, string_of, trimmed, trim};

verus! {

/// The lines of `s` from position `i` on, as `str::lines` splits them: at
/// each newline, with a carriage return before it removed.
pub open spec fn lines_from(s: Seq<char>, i: int) -> Seq<Seq<char>>
    decreases s.len() - i,
{
    if i < 0 || i >= s.len() {
        Seq::empty()
    } else {
        let e = line_end(s, i);
        let line = if e < s.len() && e > i && s[e - 1] == '\r' { s.subrange(i, e - 1) } else { s.subrange(i, e) };
        if e < i || e >= s.len() { seq![line] } else { seq![line] + lines_from(s, e + 1) }
    }
}

pub open spec fn lines_of(s: Seq<char>) -> Seq<Seq<char>> {
    lines_from(s, 0)
}

pub open spec fn import_prefix() -> Seq<char> {
    seq!['i', 'm', 'p', 'o', 'r', 't', ' ']
}

/// The path that an import line names, if the line is one.
pub open spec fn import_target(line: Seq<char>) -> Option<Seq<char>> {
    let t = trimmed(line);
    if t.len() >= 7 && t.take(7) == import_prefix() { Some(trimmed(t.skip(7))) } else { None }
}

/// A file being expanded: its lines, the next one to read and the text so far.
#[derive(Debug)]
pub struct Frame {
    pub file: String,
    pub canonical: String,
    pub lines: Vec<String>,
    pub next: usize,
    pub output: String,
}

pub struct FrameView {
    pub file: Seq<char>,
    pub canonical: Seq<char>,
    pub lines: Seq<Seq<char>>,
    pub next: int,
    pub output: Seq<char>,
}

impl View for Frame {
    type V = FrameView;

    open spec fn view(&self) -> FrameView {
        FrameView {
            file: self.file@,
            canonical: self.canonical@,
            lines: crate::note::strings_view(self.lines@),
            next: self.next as int,
            output: self.output@,
        }
    }
}

pub open spec fn frames_view(v: Seq<Frame>) -> Seq<FrameView> {
    v.map_values(|f: Frame| f@)
}

/// What the expander needs next.
#[derive(Debug)]
pub enum Request {
    /// The text of the file that `target` names, relative to `importer`'s directory.
    Import { importer: String, target: String },
    /// The expanded text of the root file.
    Done(String),
}

pub enum RequestView {
    Import { importer: Seq<char>, target: Seq<char> },
    Done(Seq<char>),
}

impl View for Request {
    type V = RequestView;

    open spec fn view(&self) -> RequestView {
        match self {
            Request::Import { importer, target } => RequestView::Import { importer: importer@, target: target@ },
            Request::Done(s) => RequestView::Done(s@),
        }
    }
}

pub open spec fn ends_with_blank_line(s: Seq<char>) -> bool {
    s.len() >= 2 && s[s.len() - 1] == '\n' && s[s.len() - 2] == '\n'
}

/// Expands lines of the innermost file, closing finished files into the one
/// that imported them, until an import needs a file or the root is done.
pub open spec fn advance_frames(fs: Seq<FrameView>) -> (Seq<FrameView>, RequestView)
    decreases fs.len(), if fs.len() > 0 && fs.last().next < fs.last().lines.len() { fs.last().lines.len() - fs.last().next } else { 0 },
{
    if fs.len() == 0 {
        (fs, RequestView::Done(Seq::empty()))
    } else {
        let top = fs.last();
        let last = fs.len() - 1;
        if 0 <= top.next < top.lines.len() {
            let line = top.lines[top.next];
            match import_target(line) {
                Some(t) => (
                    fs.update(last, FrameView { next: top.next + 1, ..top }),
                    RequestView::Import { importer: top.file, target: t },
                ),
                None => advance_frames(
                    fs.update(last, FrameView { next: top.next + 1, output: top.output + line + seq!['\n'], ..top }),
                ),
            }
        } else {
            let rest = fs.drop_last();
            if rest.len() == 0 {
                (rest, RequestView::Done(top.output))
            } else {
                let parent = rest.last();
                let out = if ends_with_blank_line(top.output) {
                    parent.output + top.output
                } else {
                    parent.output + top.output + seq!['\n']
                };
                advance_frames(rest.update(rest.len() - 1, FrameView { output: out, ..parent }))
            }
        }
    }
}

pub open spec fn on_stack(fs: Seq<FrameView>, canonical: Seq<char>) -> bool {
    exists|k: int| 0 <= k < fs.len() && (#[trigger] fs[k]).canonical == canonical
}

/// Recursive expansion of imports, with the files being expanded on a stack.
#[derive(Debug)]
pub struct ImportExpander {
    /// Directory that imports of a file without a parent directory resolve against.
    pub base_dir: String,
    pub frames: Vec<Frame>,
}

/// Splits a text into lines as `str::lines` does.
pub fn split_lines(s: &str) -> (r: Vec<String>)
    ensures
        crate::note::strings_view(r@) == lines_of(s@),
{
    let cs = chars_of(s);
    let mut r: Vec<String> = Vec::new();
    let mut i: usize = 0;
    while i < cs.len()
        invariant
            i <= cs.len(),
            cs@ == s@,
            crate::note::strings_view(r@) + lines_from(cs@, i as int) == lines_of(cs@),
        decreases cs.len() - i,
    {
        let mut e = i;
        while e < cs.len() && cs[e] != '\n'
            invariant
                i <= e <= cs.len(),
                line_end(cs@, e as int) == line_end(cs@, i as int),
            decreases cs.len() - e,
        {
            e = e + 1;
        }
        let stop = if e < cs.len() && e > i && cs[e - 1] == '\r' { e - 1 } else { e };
        let line = string_of(&cs, i, stop);
        let ghost before = crate::note::strings_view(r@);
        r.push(line);
        proof {
            assert(crate::note::strings_view(r@) =~= before.push(line@));
            if e < cs.len() {
                assert(before + (seq![line@] + lines_from(cs@, e + 1)) =~= before.push(line@) + lines_from(cs@, e + 1));
            } else {
                assert(before + seq![line@] =~= before.push(line@) + lines_from(cs@, e as int));
            }
        }
        i = if e < cs.len() { e + 1 } else { e };
    }
    assert(crate::note::strings_view(r@) =~= crate::note::strings_view(r@) + lines_from(cs@, i as int));
    r
}

/// The path that an import line names, if the line is one.
pub fn import_path(line: &String) -> (r: Option<String>)
    ensures
        match r {
            Some(t) => import_target(line@) == Some(t@),
            None => import_target(line@) is None,
        },
{
    let cs = chars_of(line.as_str());
    let t = trim(&cs);
    let tc = chars_of(t.as_str());
    if tc.len() >= 7 && tc[0] == 'i' && tc[1] == 'm' && tc[2] == 'p' && tc[3] == 'o' && tc[4] == 'r' && tc[5] == 't' && tc[6] == ' ' {
        assert(tc@.take(7) =~= import_prefix());
        let rest = string_of(&tc, 7, tc.len());
        let rc = chars_of(rest.as_str());
        assert(rc@ =~= tc@.skip(7));
        Some(trim(&rc))
    } else {
        proof {
            if tc@.len() >= 7 && tc@.take(7) == import_prefix() {
                assert(tc@.take(7)[0] == tc@[0]);
                assert(tc@.take(7)[1] == tc@[1]);
                assert(tc@.take(7)[2] == tc@[2]);
                assert(tc@.take(7)[3] == tc@[3]);
                assert(tc@.take(7)[4] == tc@[4]);
                assert(tc@.take(7)[5] == tc@[5]);
                assert(tc@.take(7)[6] == tc@[6]);
            }
        }
        None
    }
}

fn ends_blank(s: &String) -> (r: bool)
    ensures
        r == ends_with_blank_line(s@),
{
    let cs = chars_of(s.as_str());
    cs.len() >= 2 && cs[cs.len() - 1] == '\n' && cs[cs.len() - 2] == '\n'
}

impl ImportExpander {
    pub fn new(base_dir: String) -> (r: Self)
        ensures
            r.base_dir@ == base_dir@,
            r.frames@.len() == 0,
    {
        ImportExpander { base_dir, frames: Vec::new() }
    }

    /// Whether a file with this canonical path is being expanded.
    pub fn is_expanding(&self, canonical: &String) -> (r: bool)
        ensures
            r == on_stack(frames_view(self.frames@), canonical@),
    {
        let ghost fv = frames_view(self.frames@);
        let mut k: usize = 0;
        while k < self.frames.len()
            invariant
                k <= self.frames@.len(),
                fv == frames_view(self.frames@),
                forall|m: int| 0 <= m < k ==> fv[m].canonical != canonical@,
            decreases self.frames.len() - k,
        {
            if self.frames[k].canonical == *canonical {
                assert(fv[k as int].canonical == canonical@);
                return true;
            }
            k = k + 1;
        }
        false
    }

    /// Starts expanding the text of `file`, whose canonical path is
    /// `canonical`; a file that is already being expanded is a cycle.
    pub fn enter(&mut self, file: String, canonical: String, content: &str) -> (r: Result<(), DeckError>)
        ensures
            on_stack(frames_view(old(self).frames@), canonical@) ==> (r matches Err(DeckError::CircularImport(p))
                && p@ == file@ && final(self).frames@ == old(self).frames@),
            !on_stack(frames_view(old(self).frames@), canonical@) ==> (r is Ok
                && frames_view(final(self).frames@) == frames_view(old(self).frames@).push(FrameView {
                    file: file@,
                    canonical: canonical@,
                    lines: lines_of(content@),
                    next: 0,
                    output: Seq::empty(),
                })),
            final(self).base_dir == old(self).base_dir,
    {
        if self.is_expanding(&canonical) {
            return Err(DeckError::CircularImport(file));
        }
        let lines = split_lines(content);
        let frame = Frame { file, canonical, lines, next: 0, output: String::new() };
        let ghost before = frames_view(self.frames@);
        let ghost fv = frame@;
        self.frames.push(frame);
        assert(frames_view(self.frames@) =~= before.push(fv));
        Ok(())
    }

    /// Expands until the innermost file reaches an import, whose target is
    /// returned, or the root file is finished, whose text is returned.
    pub fn expand(&mut self) -> (r: Request)
        ensures
            (frames_view(final(self).frames@), r@) == advance_frames(frames_view(old(self).frames@)),
            final(self).base_dir == old(self).base_dir,
    {
        let ghost goal = advance_frames(frames_view(self.frames@));
        loop
            invariant
                advance_frames(frames_view(self.frames@)) == goal,
                goal == advance_frames(frames_view(old(self).frames@)),
                self.base_dir == old(self).base_dir,
            decreases self.frames@.len(),
                if self.frames@.len() > 0 && self.frames@.last().next < self.frames@.last().lines@.len() {
                    self.frames@.last().lines@.len() - self.frames@.last().next
                } else {
                    0
                },
        {
            let ghost fs = frames_view(self.frames@);
            if self.frames.len() == 0 {
                assert(fs =~= Seq::<FrameView>::empty());
                return Request::Done(String::new());
            }
            let mut top = match self.frames.pop() {
                Some(f) => f,
                None => {
                    return Request::Done(String::new());
                },
            };
            let ghost t0 = top@;
            assert(fs.last() == t0);
            assert(frames_view(self.frames@) =~= fs.drop_last());
            if top.next < top.lines.len() {
                let line = top.lines[top.next].clone();
                assert(line@ == t0.lines[t0.next]);
                top.next = top.next + 1;
                match import_path(&line) {
                    Some(target) => {
                        let importer = top.file.clone();
                        let ghost tv = top@;
                        assert(tv == FrameView { next: t0.next + 1, ..t0 });
                        self.frames.push(top);
                        assert(frames_view(self.frames@) =~= fs.update(fs.len() - 1, tv));
                        return Request::Import { importer, target };
                    },
                    None => {
                        push_str(&mut top.output, line.as_str());
                        push_char(&mut top.output, '\n');
                        let ghost tv = top@;
                        assert(tv.output =~= t0.output + line@ + seq!['\n']);
                        assert(tv == FrameView { next: t0.next + 1, output: t0.output + line@ + seq!['\n'], ..t0 });
                        self.frames.push(top);
                        assert(frames_view(self.frames@) =~= fs.update(fs.len() - 1, tv));
                    },
                }
            } else {
                let mut parent = match self.frames.pop() {
                    Some(p) => p,
                    None => {
                        return Request::Done(top.output);
                    },
                };
                let ghost rest = fs.drop_last();
                let ghost p0 = parent@;
                assert(rest.last() == p0);
                let blank = ends_blank(&top.output);
                push_str(&mut parent.output, top.output.as_str());
                if !blank {
                    push_char(&mut parent.output, '\n');
                }
                let ghost pv = parent@;
                proof {
                    let out = if ends_with_blank_line(t0.output) {
                        p0.output + t0.output
                    } else {
                        p0.output + t0.output + seq!['\n']
                    };
                    assert(pv.output =~= out);
                    assert(pv == FrameView { output: out, ..p0 });
                }
                self.frames.push(parent);
                assert(frames_view(self.frames@) =~= rest.update(rest.len() - 1, pv));
            }
        }
    }
}

} // verus!

verus! {

/// Lines joined back, each followed by a newline.
pub open spec fn unlines(ls: Seq<Seq<char>>) -> Seq<char>
    decreases ls.len(),
{
    if ls.len() == 0 { Seq::empty() } else { ls[0] + seq!['\n'] + unlines(ls.drop_first()) }
}

/// `s` ending in a newline: as it is if it is empty or ends in one.
pub open spec fn terminated(s: Seq<char>) -> Seq<char> {
    if s.len() == 0 || s.last() == '\n' { s } else { s.push('\n') }
}

proof fn lemma_line_end(s: Seq<char>, i: int)
    requires
        0 <= i <= s.len(),
    ensures
        i <= line_end(s, i) <= s.len(),
        line_end(s, i) < s.len() ==> s[line_end(s, i)] == '\n',
        forall|k: int| i <= k < line_end(s, i) ==> s[k] != '\n',
    decreases s.len() - i,
{
    if i < s.len() && s[i] != '\n' {
        lemma_line_end(s, i + 1);
    }
}

proof fn lemma_unlines_lines(s: Seq<char>, i: int)
    requires
        0 <= i <= s.len(),
        !s.contains('\r'),
    ensures
        unlines(lines_from(s, i)) == terminated(s.skip(i)),
    decreases s.len() - i,
{
    if i < s.len() {
        let e = line_end(s, i);
        lemma_line_end(s, i);
        if e > i && e < s.len() && s[e - 1] == '\r' {
            assert(s.contains('\r'));
        }
        let line = s.subrange(i, e);
        if e >= s.len() {
            assert(lines_from(s, i) == seq![line]);
            assert(seq![line].drop_first() =~= Seq::<Seq<char>>::empty());
            assert(s.skip(i) =~= line);
            assert(line.last() == s[s.len() - 1]);
            assert(unlines(Seq::<Seq<char>>::empty()) == Seq::<char>::empty());
            assert(seq![line][0] == line);
            assert(unlines(seq![line]) == line + seq!['\n'] + unlines(Seq::<Seq<char>>::empty()));
            assert(unlines(seq![line]) =~= line.push('\n'));
        } else {
            lemma_unlines_lines(s, e + 1);
            let rest = lines_from(s, e + 1);
            let ls = seq![line] + rest;
            assert(lines_from(s, i) == ls);
            assert(ls.drop_first() =~= rest);
            assert(ls[0] == line);
            let t = s.skip(e + 1);
            assert(s.skip(i) =~= line + seq!['\n'] + t);
            if t.len() == 0 {
                assert(terminated(s.skip(i)) == s.skip(i));
                assert(unlines(ls) =~= line + seq!['\n'] + t);
            } else {
                assert((line + seq!['\n'] + t).last() == t.last());
                assert((line + seq!['\n'] + t).push('\n') =~= line + seq!['\n'] + t.push('\n'));
                assert(unlines(ls) =~= line + seq!['\n'] + terminated(t));
            }
        }
    } else {
        assert(s.skip(i) =~= Seq::<char>::empty());
    }
}

proof fn lemma_frame_runs_out(file: Seq<char>, canonical: Seq<char>, lines: Seq<Seq<char>>, k: int, out: Seq<char>)
    requires
        0 <= k <= lines.len(),
        forall|m: int| k <= m < lines.len() ==> import_target(#[trigger] lines[m]) is None,
    ensures
        advance_frames(seq![FrameView { file, canonical, lines, next: k, output: out }])
            == (Seq::<FrameView>::empty(), RequestView::Done(out + unlines(lines.skip(k)))),
    decreases lines.len() - k,
{
    let f = FrameView { file, canonical, lines, next: k, output: out };
    if k < lines.len() {
        let o2 = out + lines[k] + seq!['\n'];
        lemma_frame_runs_out(file, canonical, lines, k + 1, o2);
        assert(import_target(lines[k]) is None);
        assert(seq![f].update(0, FrameView { next: k + 1, output: o2, ..f })
            =~= seq![FrameView { file, canonical, lines, next: k + 1, output: o2 }]);
        let sk = lines.skip(k);
        assert(sk[0] == lines[k]);
        assert(sk.drop_first() =~= lines.skip(k + 1));
        assert(o2 + unlines(lines.skip(k + 1)) =~= out + unlines(sk));
    } else {
        assert(lines.skip(k) =~= Seq::<Seq<char>>::empty());
        assert(out + Seq::<char>::empty() =~= out);
        assert(seq![f].drop_last() =~= Seq::<FrameView>::empty());
    }
}

/// Expanding a text that has no import lines and no carriage returns gives the
/// text back, with a newline added at its end if it lacks one.
pub proof fn lemma_expand_without_imports(file: Seq<char>, canonical: Seq<char>, s: Seq<char>)
    requires
        !s.contains('\r'),
        forall|m: int| 0 <= m < lines_of(s).len() ==> import_target(#[trigger] lines_of(s)[m]) is None,
    ensures
        advance_frames(seq![FrameView { file, canonical, lines: lines_of(s), next: 0, output: Seq::empty() }])
            == (Seq::<FrameView>::empty(), RequestView::Done(terminated(s))),
{
    lemma_frame_runs_out(file, canonical, lines_of(s), 0, Seq::empty());
    lemma_unlines_lines(s, 0);
    assert(lines_of(s).skip(0) =~= lines_of(s));
    assert(s.skip(0) =~= s);
    assert(Seq::<char>::empty() + unlines(lines_of(s)) =~= unlines(lines_of(s)));
}

} // verus!
