//! A second, simpler scanner: the one the keyframes rewriter builds on.
//! It differs from [`crate::cursor::Cursor`] in three ways: it exposes the
//! next character directly, its text scan reports the consumed text when
//! the input runs out, and its balanced-span primitive works on braces and
//! returns the span's text without the enclosing pair.

use vstd::prelude::*;
use crate::text::find_delim;
use crate::text::find_space;
use crate::text::is_space_char;
use crate::text::push_char;
use crate::text::seq_views;
use crate::text::skip_spaces;
use crate::text::str_to_chars;

verus! {

/// Folds the groups that are still open when the input runs out inside a
/// braced span: each group closes with its collected content and reaches
/// the group around it wrapped in one brace pair.
pub open spec fn close_brace_frames(stack: Seq<Seq<char>>) -> Seq<char>
    decreases stack.len(),
{
    if stack.len() <= 1 {
        if stack.len() == 1 {
            stack[0]
        } else {
            Seq::<char>::empty()
        }
    } else {
        close_brace_frames(
            stack.drop_last().update(
                stack.len() - 2,
                stack[stack.len() - 2] + seq!['{'] + stack.last() + seq!['}'],
            ),
        )
    }
}

/// One step per character of a brace scan, as [`crate::cursor::paren_run`]
/// but over braces, and yielding the outermost group's text without the
/// enclosing pair — so nested groups keep exactly one brace pair and the
/// text of a balanced span is preserved verbatim.
pub open spec fn brace_run(stack: Seq<Seq<char>>, seg: Seq<char>, s: Seq<char>) -> (Seq<
    char,
>, Seq<char>)
    recommends
        stack.len() >= 1,
    decreases s.len(),
{
    if s.len() == 0 {
        (close_brace_frames(stack), Seq::<char>::empty())
    } else {
        let c = s[0];
        if c == '{' {
            brace_run(
                stack.update(stack.len() - 1, stack.last() + seg).push(Seq::<char>::empty()),
                Seq::<char>::empty(),
                s.drop_first(),
            )
        } else if c == '}' {
            let closed = stack.last() + seg;
            if stack.len() <= 1 {
                (closed, s.drop_first())
            } else {
                brace_run(
                    stack.drop_last().update(
                        stack.len() - 2,
                        stack[stack.len() - 2] + seq!['{'] + closed + seq!['}'],
                    ),
                    Seq::<char>::empty(),
                    s.drop_first(),
                )
            }
        } else {
            brace_run(stack, seg.push(c), s.drop_first())
        }
    }
}

/// What [`Cursor::take_brace`] consumes and returns: `None` unless the
/// input begins with `{`; otherwise the text inside the balanced span and
/// the input left after it.
pub open spec fn brace_take(s: Seq<char>) -> Option<(Seq<char>, Seq<char>)> {
    if s.len() > 0 && s[0] == '{' {
        Some(brace_run(seq![Seq::<char>::empty()], Seq::<char>::empty(), s.drop_first()))
    } else {
        None
    }
}

/// A consuming scanner over one text fragment.
pub struct Cursor {
    chars: Vec<char>,
    pos: usize,
}

impl Cursor {
    /// The position never runs past the end of the characters.
    pub closed spec fn wf(&self) -> bool {
        self.pos <= self.chars@.len()
    }

    /// The characters not yet consumed.
    pub closed spec fn remaining(&self) -> Seq<char> {
        self.chars@.skip(self.pos as int)
    }

    pub fn new(content: &str) -> (c: Cursor)
        ensures
            c.wf(),
            c.remaining() == content@,
    {
        let c = Cursor { chars: str_to_chars(content), pos: 0 };
        proof {
            assert(c.remaining() =~= content@);
        }
        c
    }

    pub fn is_empty(&self) -> (r: bool)
        requires
            self.wf(),
        ensures
            r == (self.remaining().len() == 0),
    {
        self.pos == self.chars.len()
    }

    /// Whether the next character is exactly `ch`; consumes nothing.
    pub fn peek(&self, ch: char) -> (r: bool)
        requires
            self.wf(),
        ensures
            r == (self.remaining().len() > 0 && self.remaining()[0] == ch),
    {
        self.pos < self.chars.len() && self.chars[self.pos] == ch
    }

    /// Consumes and returns the next character, when one is left.
    pub fn next(&mut self) -> (r: Option<char>)
        requires
            old(self).wf(),
        ensures
            final(self).wf(),
            old(self).remaining().len() == 0 ==> r is None && final(self).remaining()
                == old(self).remaining(),
            old(self).remaining().len() > 0 ==> r == Some(old(self).remaining()[0])
                && final(self).remaining() == old(self).remaining().drop_first(),
    {
        if self.pos < self.chars.len() {
            let c = self.chars[self.pos];
            proof {
                assert(self.remaining().drop_first() =~= self.chars@.skip(self.pos as int + 1));
            }
            self.pos = self.pos + 1;
            Some(c)
        } else {
            None
        }
    }

    /// Consumes the next character only when it is exactly `ch` and returns
    /// `Some(ch)` then; otherwise returns `None` and consumes nothing.
    pub fn take(&mut self, ch: char) -> (r: Option<char>)
        requires
            old(self).wf(),
        ensures
            final(self).wf(),
            old(self).remaining().len() > 0 && old(self).remaining()[0] == ch ==> r == Some(ch)
                && final(self).remaining() == old(self).remaining().drop_first(),
            !(old(self).remaining().len() > 0 && old(self).remaining()[0] == ch) ==> r is None
                && final(self).remaining() == old(self).remaining(),
    {
        if self.pos < self.chars.len() && self.chars[self.pos] == ch {
            proof {
                assert(self.remaining().drop_first() =~= self.chars@.skip(self.pos as int + 1));
            }
            self.pos = self.pos + 1;
            Some(ch)
        } else {
            None
        }
    }

    pub fn skip_white_space(&mut self)
        requires
            old(self).wf(),
        ensures
            final(self).wf(),
            final(self).remaining() == skip_spaces(old(self).remaining()),
    {
        let ghost orig: Cursor = *self;
        while self.pos < self.chars.len() && is_space_char(self.chars[self.pos])
            invariant
                self.wf(),
                self.chars@ == orig.chars@,
                skip_spaces(orig.remaining()) == skip_spaces(self.remaining()),
            decreases self.chars@.len() - self.pos,
        {
            proof {
                assert(self.remaining().drop_first() =~= self.chars@.skip(self.pos as int + 1));
            }
            self.pos = self.pos + 1;
        }
    }

    /// As [`crate::cursor::Cursor::take_until`], but when the input runs
    /// out before a delimiter, the text consumed is handed back in the
    /// error.
    pub fn take_until(&mut self, delimiters: &[char]) -> (r: Result<(String, char), String>)
        requires
            old(self).wf(),
        ensures
            final(self).wf(),
            ({
                let rem = old(self).remaining();
                match find_delim(rem, delimiters@, 0) {
                    Some(j) => {
                        &&& r matches Ok(p)
                        &&& p.0@ == rem.subrange(0, j)
                        &&& p.1 == rem[j]
                        &&& final(self).remaining() == rem.skip(j)
                    },
                    None => {
                        &&& r matches Err(t)
                        &&& t@ == rem
                        &&& final(self).remaining().len() == 0
                    },
                }
            }),
    {
        let ghost orig: Cursor = *self;
        let mut ret = String::new();
        loop
            invariant
                orig == *old(self),
                self.wf(),
                self.chars@ == orig.chars@,
                orig.pos <= self.pos,
                ret@ == orig.remaining().subrange(0, self.pos - orig.pos),
                find_delim(orig.remaining(), delimiters@, 0) == find_delim(
                    orig.remaining(),
                    delimiters@,
                    self.pos - orig.pos,
                ),
            decreases self.chars@.len() - self.pos,
        {
            if self.pos < self.chars.len() {
                let c = self.chars[self.pos];
                proof {
                    assert(orig.remaining()[self.pos - orig.pos] == c);
                }
                if crate::text::contains_char(delimiters, c) {
                    proof {
                        assert(self.chars@.skip(self.pos as int) =~= orig.remaining().skip(
                            self.pos - orig.pos,
                        ));
                    }
                    return Ok((ret, c));
                } else {
                    push_char(&mut ret, c);
                    proof {
                        assert(ret@ =~= orig.remaining().subrange(0, self.pos + 1 - orig.pos));
                    }
                    self.pos = self.pos + 1;
                }
            } else {
                proof {
                    assert(ret@ =~= orig.remaining());
                }
                return Err(ret);
            }
        }
    }

    /// As [`crate::cursor::Cursor::take_until_whitespace`].
    pub fn take_until_whitespace(&mut self) -> (r: Option<String>)
        requires
            old(self).wf(),
        ensures
            final(self).wf(),
            ({
                let rem = old(self).remaining();
                match find_space(rem, 0) {
                    Some(j) => {
                        &&& r matches Some(t)
                        &&& t@ == rem.subrange(0, j)
                        &&& final(self).remaining() == rem.skip(j)
                    },
                    None => r is None && final(self).remaining().len() == 0,
                }
            }),
    {
        let ghost orig: Cursor = *self;
        let mut ret = String::new();
        loop
            invariant
                orig == *old(self),
                self.wf(),
                self.chars@ == orig.chars@,
                orig.pos <= self.pos,
                ret@ == orig.remaining().subrange(0, self.pos - orig.pos),
                find_space(orig.remaining(), 0) == find_space(
                    orig.remaining(),
                    self.pos - orig.pos,
                ),
            decreases self.chars@.len() - self.pos,
        {
            if self.pos < self.chars.len() {
                let c = self.chars[self.pos];
                proof {
                    assert(orig.remaining()[self.pos - orig.pos] == c);
                }
                if is_space_char(c) {
                    proof {
                        assert(self.chars@.skip(self.pos as int) =~= orig.remaining().skip(
                            self.pos - orig.pos,
                        ));
                    }
                    return Some(ret);
                } else {
                    push_char(&mut ret, c);
                    proof {
                        assert(ret@ =~= orig.remaining().subrange(0, self.pos + 1 - orig.pos));
                    }
                    self.pos = self.pos + 1;
                }
            } else {
                return None;
            }
        }
    }

    /// Consumes a `{`-delimited, nesting-aware span and returns the text
    /// inside it, as [`brace_take`] describes.  When the next character is
    /// not `{`, that one character is still consumed (unless the input is
    /// empty) and `None` is returned.
    pub fn take_brace(&mut self) -> (r: Option<String>)
        requires
            old(self).wf(),
        ensures
            final(self).wf(),
            ({
                let rem = old(self).remaining();
                match brace_take(rem) {
                    Some(pr) => {
                        &&& r matches Some(t)
                        &&& t@ == pr.0
                        &&& final(self).remaining() == pr.1
                    },
                    None => r is None && final(self).remaining() == rem,
                }
            }),
    {
        if self.take('{').is_none() {
            return None;
        }
        let mut stack: Vec<String> = Vec::new();
        stack.push(String::new());
        let mut seg = String::new();
        proof {
            assert(seq_views(stack@) =~= seq![Seq::<char>::empty()]);
        }
        loop
            invariant
                self.wf(),
                stack@.len() >= 1,
                old(self).remaining().len() > 0 && old(self).remaining()[0] == '{',
                brace_take(old(self).remaining()) == Some(
                    brace_run(seq_views(stack@), seg@, self.remaining()),
                ),
            decreases self.remaining().len(),
        {
            let ghost vs0 = seq_views(stack@);
            let ghost seg0 = seg@;
            let ghost rem_i = self.remaining();
            if self.pos == self.chars.len() {
                while stack.len() > 1
                    invariant
                        stack@.len() >= 1,
                        close_brace_frames(seq_views(stack@)) == close_brace_frames(vs0),
                    decreases stack@.len(),
                {
                    let ghost ws0 = seq_views(stack@);
                    let f = stack.pop().unwrap();
                    let mut p = stack.pop().unwrap();
                    push_char(&mut p, '{');
                    p.append(f.as_str());
                    push_char(&mut p, '}');
                    stack.push(p);
                    proof {
                        assert(seq_views(stack@) =~= ws0.drop_last().update(
                            ws0.len() - 2,
                            ws0[ws0.len() - 2] + seq!['{'] + ws0.last() + seq!['}'],
                        ));
                    }
                }
                let f = stack.pop().unwrap();
                proof {
                    assert(seq_views(stack@).push(f@) =~= seq![f@]);
                    assert(f@ == close_brace_frames(seq![f@]));
                    assert(rem_i.len() == 0);
                }
                return Some(f);
            }
            let c = self.chars[self.pos];
            proof {
                assert(rem_i[0] == c);
                assert(rem_i.drop_first() =~= self.chars@.skip(self.pos as int + 1));
            }
            self.pos = self.pos + 1;
            if c == '{' {
                let mut f = stack.pop().unwrap();
                f.append(seg.as_str());
                stack.push(f);
                stack.push(String::new());
                seg = String::new();
                proof {
                    assert(seq_views(stack@) =~= vs0.update(
                        vs0.len() - 1,
                        vs0.last() + seg0,
                    ).push(Seq::<char>::empty()));
                }
            } else if c == '}' {
                let mut f = stack.pop().unwrap();
                f.append(seg.as_str());
                if stack.len() == 0 {
                    proof {
                        assert(f@ =~= vs0.last() + seg0);
                    }
                    return Some(f);
                }
                let mut p = stack.pop().unwrap();
                push_char(&mut p, '{');
                p.append(f.as_str());
                push_char(&mut p, '}');
                stack.push(p);
                seg = String::new();
                proof {
                    assert(seq_views(stack@) =~= vs0.drop_last().update(
                        vs0.len() - 2,
                        vs0[vs0.len() - 2] + seq!['{'] + (vs0.last() + seg0) + seq!['}'],
                    ));
                }
            } else {
                push_char(&mut seg, c);
                proof {
                    assert(seg@ =~= seg0.push(c));
                }
            }
        }
    }
}

} // verus!
