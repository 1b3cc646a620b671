use crate::aig::{fmt_lit, lit_value_text, var_printable, Aig};
use crate::text::{decimal, push_char, push_chars, push_decimal};
use crate::frame::{Frame, FrameLemma, Frames};
use crate::lit::{Lemma, Lit};
use vstd::prelude::*;

verus! {

/// Every literal of `s` names a variable whose text can be written.
pub open spec fn lits_printable(aig: &Aig, s: Seq<Lit>) -> bool {
    forall|k: int| 0 <= k < s.len() ==> var_printable(aig, ((#[trigger] s[k]).0 / 2) as int)
}

/// Every lemma of every frame can be written.
pub open spec fn frames_printable<P>(aig: &Aig, fs: Seq<Seq<FrameLemma<P>>>) -> bool {
    forall|i: int, j: int|
        0 <= i < fs.len() && 0 <= j < fs[i].len() ==> lits_printable(aig, (#[trigger] fs[i][j])@)
}

/// Each literal on a line of its own, indented by four spaces.
pub open spec fn lits_text(aig: &Aig, s: Seq<Lit>) -> Seq<char>
    decreases s.len(),
{
    if s.len() == 0 {
        Seq::empty()
    } else {
        lits_text(aig, s.drop_last()) + seq!['\n', ' ', ' ', ' ', ' '] + lit_value_text(
            aig,
            s.last().0,
        )
    }
}

/// `  lemma i: ` and the lemma's literals, then a line break, for each
/// lemma of a frame.
pub open spec fn frame_text<P>(aig: &Aig, f: Seq<FrameLemma<P>>) -> Seq<char>
    decreases f.len(),
{
    if f.len() == 0 {
        Seq::empty()
    } else {
        frame_text(aig, f.drop_last()) + seq![' ', ' ', 'l', 'e', 'm', 'm', 'a', ' '] + decimal(
            (f.len() - 1) as nat,
        ) + seq![':', ' '] + lits_text(aig, f.last()@) + seq!['\n']
    }
}

/// `frame i: n lemmas` on a line, then the frame's lemmas, for each frame.
pub open spec fn frames_body<P>(aig: &Aig, fs: Seq<Seq<FrameLemma<P>>>) -> Seq<char>
    decreases fs.len(),
{
    if fs.len() == 0 {
        Seq::empty()
    } else {
        frames_body(aig, fs.drop_last()) + seq!['f', 'r', 'a', 'm', 'e', ' '] + decimal(
            (fs.len() - 1) as nat,
        ) + seq![':', ' '] + decimal(fs.last().len()) + seq![
            ' ',
            'l',
            'e',
            'm',
            'm',
            'a',
            's',
            '\n',
        ] + frame_text(aig, fs.last())
    }
}

/// The heading of the frames' text.
pub open spec fn frames_heading() -> Seq<char> {
    seq![
        'i',
        'n',
        's',
        'p',
        'e',
        'c',
        't',
        ' ',
        'i',
        'n',
        't',
        'o',
        ' ',
        'f',
        'r',
        'a',
        'm',
        'e',
        's',
        '.',
        '\n',
    ]
}

/// Appends each literal of `lits` on a line of its own.
fn fmt_lits(f: &mut String, aig: &Aig, lits: &[Lit])
    requires
        lits_printable(aig, lits@),
    ensures
        final(f)@ == old(f)@ + lits_text(aig, lits@),
{
    let mut k: usize = 0;
    while k < lits.len()
        invariant
                lits_printable(aig, lits@),
            0 <= k <= lits@.len(),
            f@ == old(f)@ + lits_text(aig, lits@.take(k as int)),
        decreases lits@.len() - k,
    {
        push_chars(f, &['\n', ' ', ' ', ' ', ' ']);
        fmt_lit(f, aig, lits[k]);
        proof {
            assert(lits@.take(k + 1).drop_last() =~= lits@.take(k as int));
            assert(f@ =~= old(f)@ + lits_text(aig, lits@.take(k + 1)));
        }
        k += 1;
    }
    proof {
        assert(lits@.take(k as int) =~= lits@);
    }
}

/// A literal together with the graph that names its variable.
pub struct LitDisplay<'a> {
    pub lit: &'a Lit,
    pub aig: &'a Aig,
}

impl<'a> LitDisplay<'a> {
    /// The text of the literal with the value it takes.
    pub fn to_string(&self) -> (r: String)
        requires
            var_printable(self.aig, (self.lit.0 / 2) as int),
        ensures
            r@ == lit_value_text(self.aig, self.lit.0),
    {
        let mut f = String::new();
        fmt_lit(&mut f, self.aig, *self.lit);
        proof {
            assert(f@ =~= lit_value_text(self.aig, self.lit.0));
        }
        f
    }
}

/// Literals together with the graph that names their variables.
pub struct LitVecDispaly<'a> {
    pub lits: &'a [Lit],
    pub aig: &'a Aig,
}

impl<'a> LitVecDispaly<'a> {
    /// Each literal on a line of its own.
    pub fn to_string(&self) -> (r: String)
        requires
            lits_printable(self.aig, self.lits@),
        ensures
            r@ == lits_text(self.aig, self.lits@),
    {
        let mut f = String::new();
        fmt_lits(&mut f, self.aig, self.lits);
        proof {
            assert(f@ =~= lits_text(self.aig, self.lits@));
        }
        f
    }
}

/// A lemma together with the graph that names its variables.
pub struct LemmaDisplay<'a> {
    pub lemma: &'a Lemma,
    pub aig: &'a Aig,
}

impl<'a> LemmaDisplay<'a> {
    /// Each literal of the lemma on a line of its own.
    pub fn to_string(&self) -> (r: String)
        requires
            lits_printable(self.aig, self.lemma@),
        ensures
            r@ == lits_text(self.aig, self.lemma@),
    {
        let mut f = String::new();
        fmt_lits(&mut f, self.aig, self.lemma.cube().as_slice());
        proof {
            assert(f@ =~= lits_text(self.aig, self.lemma@));
        }
        f
    }
}

/// A frame lemma together with the graph that names its variables.
pub struct FrameLemmaDisplay<'a, P> {
    pub frame_lemma: &'a FrameLemma<P>,
    pub aig: &'a Aig,
}

impl<'a, P> FrameLemmaDisplay<'a, P> {
    /// Each literal of the lemma on a line of its own.
    pub fn to_string(&self) -> (r: String)
        requires
            lits_printable(self.aig, self.frame_lemma@),
        ensures
            r@ == lits_text(self.aig, self.frame_lemma@),
    {
        LemmaDisplay { lemma: self.frame_lemma.lemma(), aig: self.aig }.to_string()
    }
}

impl<P> FrameLemma<P> {
    /// The lemma with the graph that names its variables, to be written.
    pub fn display<'a>(&'a self, aig: &'a Aig) -> (r: FrameLemmaDisplay<'a, P>)
        ensures
            r.frame_lemma == self,
            r.aig == aig,
    {
        FrameLemmaDisplay { frame_lemma: self, aig }
    }
}

/// Appends the lemmas of a frame, numbered.
fn fmt_frame<P>(f: &mut String, aig: &Aig, frame: &Frame<P>)
    requires
        forall|j: int| 0 <= j < frame@.len() ==> lits_printable(aig, (#[trigger] frame@[j])@),
    ensures
        final(f)@ == old(f)@ + frame_text(aig, frame@),
{
    let lemmas = frame.lemmas();
    let mut i: usize = 0;
    while i < lemmas.len()
        invariant
                lemmas@ == frame@,
            forall|j: int| 0 <= j < frame@.len() ==> lits_printable(aig, (#[trigger] frame@[j])@),
            0 <= i <= lemmas@.len(),
            f@ == old(f)@ + frame_text(aig, lemmas@.take(i as int)),
        decreases lemmas@.len() - i,
    {
        push_chars(f, &[' ', ' ', 'l', 'e', 'm', 'm', 'a', ' ']);
        push_decimal(f, i as u64);
        push_chars(f, &[':', ' ']);
        let s = lemmas[i].display(aig).to_string();
        f.append(s.as_str());
        push_char(f, '\n');
        proof {
            assert(lemmas@.take(i + 1).drop_last() =~= lemmas@.take(i as int));
            assert(f@ =~= old(f)@ + frame_text(aig, lemmas@.take(i + 1)));
        }
        i += 1;
    }
    proof {
        assert(lemmas@.take(i as int) =~= lemmas@);
    }
}

/// A frame together with the graph that names its variables.
pub struct FrameDisplay<'a, P> {
    pub frame: &'a Frame<P>,
    pub aig: &'a Aig,
}

impl<'a, P> FrameDisplay<'a, P> {
    /// The lemmas of the frame, numbered, each followed by a line break.
    pub fn to_string(&self) -> (r: String)
        requires
            forall|j: int|
                0 <= j < self.frame@.len() ==> lits_printable(self.aig, (#[trigger] self.frame@[j])@),
        ensures
            r@ == frame_text(self.aig, self.frame@),
    {
        let mut f = String::new();
        fmt_frame(&mut f, self.aig, self.frame);
        proof {
            assert(f@ =~= frame_text(self.aig, self.frame@));
        }
        f
    }
}

impl<P> Frame<P> {
    /// The frame with the graph that names its variables, to be written.
    pub fn display<'a>(&'a self, aig: &'a Aig) -> (r: FrameDisplay<'a, P>)
        ensures
            r.frame == self,
            r.aig == aig,
    {
        FrameDisplay { frame: self, aig }
    }
}

/// The frames together with the graph that names their variables.
pub struct FramesDisplay<'a, P> {
    pub frames: &'a Frames<P>,
    pub aig: &'a Aig,
}

impl<'a, P> FramesDisplay<'a, P> {
    /// A heading, then for each frame its number and size on a line, and
    /// its lemmas.
    pub fn to_string(&self) -> (r: String)
        requires
            frames_printable(self.aig, self.frames@),
        ensures
            r@ == frames_heading() + frames_body(self.aig, self.frames@),
    {
        let mut f = String::new();
        push_chars(&mut f, &[
            'i',
            'n',
            's',
            'p',
            'e',
            'c',
            't',
            ' ',
            'i',
            'n',
            't',
            'o',
            ' ',
            'f',
            'r',
            'a',
            'm',
            'e',
            's',
            '.',
            '\n',
        ]);
        let frames = self.frames.frames();
        let ghost fs = self.frames@;
        let mut i: usize = 0;
        while i < frames.len()
            invariant
                    frames@.map_values(|fr: Frame<P>| fr@) == fs,
                fs == self.frames@,
                frames_printable(self.aig, fs),
                0 <= i <= frames@.len(),
                f@ == frames_heading() + frames_body(self.aig, fs.take(i as int)),
            decreases frames@.len() - i,
        {
            push_chars(&mut f, &['f', 'r', 'a', 'm', 'e', ' ']);
            push_decimal(&mut f, i as u64);
            push_chars(&mut f, &[':', ' ']);
            push_decimal(&mut f, frames[i].len() as u64);
            push_chars(&mut f, &[' ', 'l', 'e', 'm', 'm', 'a', 's', '\n']);
            proof {
                assert(fs[i as int] == frames@[i as int]@);
                assert forall|j: int| 0 <= j < frames@[i as int]@.len() implies lits_printable(
                    self.aig,
                    (#[trigger] frames@[i as int]@[j])@,
                ) by {
                    assert(fs[i as int][j] == frames@[i as int]@[j]);
                }
            }
            fmt_frame(&mut f, self.aig, &frames[i]);
            proof {
                assert(fs.take(i + 1).drop_last() =~= fs.take(i as int));
                assert(f@ =~= frames_heading() + frames_body(self.aig, fs.take(i + 1)));
            }
            i += 1;
        }
        proof {
            assert(fs.take(i as int) =~= fs);
        }
        f
    }
}

impl<P> Frames<P> {
    /// The frames with the graph that names their variables, to be written.
    pub fn display<'a>(&'a self, aig: &'a Aig) -> (r: FramesDisplay<'a, P>)
        ensures
            r.frames == self,
            r.aig == aig,
    {
        FramesDisplay { frames: self, aig }
    }
}

} // verus!
