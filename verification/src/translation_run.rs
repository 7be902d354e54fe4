//! Translating a text chunk by chunk: what is sent next, what the card shows
//! meanwhile, and how it ends.
use crate::action_bar::{failed_text, failure_text, join_lines, shown_text, stream_display, Alignment, TranslationOutcome};
use crate::copying::joined_lines;
use crate::text::{trim, trimmed, views};
use vstd::prelude::*;

verus! {

/// The most characters of a chunk.
pub const CHUNK_MAX_CHARS: usize = 280;

/// A translation that is under way.
#[derive(Debug)]
pub struct TranslationRun {
    /// The chunks of the text, each as a list of sentences.
    pub chunks: Vec<Vec<String>>,
    /// What is sent behind every chunk.
    pub context: String,
    /// The translations of the chunks that are done.
    pub parts: Vec<String>,
    /// What has come of the next one.
    pub coming: String,
    /// Why the translation broke off.
    pub error: Option<String>,
}

/// What is to be done next.
#[derive(Debug)]
pub enum TranslationStep {
    /// Have this text translated.
    Translate(String),
    /// Show the result.
    Finish,
}

/// Texts with a space between them.
pub open spec fn spaced(s: Seq<Seq<char>>) -> Seq<char>
    decreases s.len(),
{
    if s.len() == 0 {
        Seq::empty()
    } else if s.len() == 1 {
        s[0]
    } else {
        spaced(s.drop_last()) + seq![' '] + s.last()
    }
}

fn join_spaced(parts: &Vec<String>) -> (out: String)
    ensures
        out@ == spaced(views(parts@)),
{
    let mut out = String::new();
    let mut i: usize = 0;
    let ghost all = views(parts@);
    assert(all.take(0) =~= Seq::<Seq<char>>::empty());
    while i < parts.len()
        invariant
            i <= parts@.len(),
            all == views(parts@),
            out@ == spaced(all.take(i as int)),
        decreases parts@.len() - i,
    {
        let ghost before = out@;
        if i > 0 {
            out.push(' ');
        }
        out.append(parts[i].as_str());
        proof {
            let t = all.take(i + 1);
            assert(t.drop_last() =~= all.take(i as int));
            assert(t.last() == parts@[i as int]@);
            if i == 0 {
                assert(out@ =~= parts@[0]@);
            } else {
                assert(out@ =~= before + seq![' '] + parts@[i as int]@);
            }
        }
        i = i + 1;
    }
    assert(all.take(i as int) =~= all);
    out
}

impl TranslationRun {
    pub open spec fn wf(self) -> bool {
        self.parts@.len() <= self.chunks@.len()
    }

    /// There is a chunk to be translated.
    pub open spec fn goes_on(self) -> bool {
        self.error is None && self.parts@.len() < self.chunks@.len()
    }

    /// What is sent for the next chunk: its sentences, and the context.
    pub open spec fn next_text(self) -> Seq<char> {
        spaced(views(self.chunks@[self.parts@.len() as int]@)) + self.context@
    }

    pub fn new(chunks: Vec<Vec<String>>, context: String) -> (r: TranslationRun)
        ensures
            r.wf(),
            r.chunks == chunks,
            r.context == context,
            r.parts@.len() == 0,
            r.coming@.len() == 0,
            r.error is None,
    {
        TranslationRun { chunks, context, parts: Vec::new(), coming: String::new(), error: None }
    }

    /// What is to be done next: the next chunk, as long as nothing failed.
    pub fn next_step(&self) -> (r: TranslationStep)
        requires
            self.wf(),
        ensures
            match r {
                TranslationStep::Translate(text) => self.goes_on() && text@ == self.next_text(),
                TranslationStep::Finish => !self.goes_on(),
            },
    {
        if self.error.is_some() || self.parts.len() >= self.chunks.len() {
            return TranslationStep::Finish;
        }
        let mut text = join_spaced(&self.chunks[self.parts.len()]);
        text.append(self.context.as_str());
        TranslationStep::Translate(text)
    }

    /// More of the translation came in.
    pub fn received(&mut self, text: &str)
        ensures
            final(self).coming@ == old(self).coming@ + text@,
            *final(self) == (TranslationRun { coming: final(self).coming, ..*old(self) }),
    {
        self.coming.append(text);
    }

    /// What the card shows, where `visible` is what can be shown of what is
    /// coming in.
    pub fn shown(&self, visible: &str) -> (r: String)
        ensures
            r@ == shown_text(views(self.parts@), visible@),
    {
        stream_display(&self.parts, visible)
    }

    /// `self` is `before` with the next chunk translated as `part`.
    pub open spec fn took(self, before: TranslationRun, part: Seq<char>) -> bool {
        &&& self.parts@.len() == before.parts@.len() + 1
        &&& self.parts@.drop_last() == before.parts@
        &&& self.parts@.last()@ == part
        &&& self.coming@.len() == 0
        &&& self == (TranslationRun { parts: self.parts, coming: self.coming, ..before })
    }

    /// The chunk is done: `tidy` is what came in without what does not belong to
    /// it. Where that cannot be told, it is taken as it came, without the white
    /// space at its ends.
    pub fn chunk_done(&mut self, tidy: Option<String>)
        requires
            old(self).wf(),
            old(self).goes_on(),
        ensures
            final(self).wf(),
            final(self).took(
                *old(self),
                match tidy {
                    Some(t) => t@,
                    None => trimmed(old(self).coming@),
                },
            ),
    {
        let part = match tidy {
            Some(t) => t,
            None => trim(self.coming.as_str()),
        };
        self.parts.push(part);
        self.coming = String::new();
        assert(self.parts@.drop_last() =~= old(self).parts@);
    }

    /// The translation broke off.
    pub fn failed(&mut self, error: String)
        ensures
            *final(self) == (TranslationRun { error: Some(error), ..*old(self) }),
    {
        self.error = Some(error);
    }

    /// The translations of all chunks, one to a line.
    pub fn whole(&self) -> (r: String)
        ensures
            r@ == joined_lines(views(self.parts@)),
    {
        join_lines(&self.parts)
    }

    /// How the translation ended: with an error, below what was done by then; or
    /// with the whole text and its sentences, or with why these cannot be told.
    pub fn outcome(&self, tidy: Result<(String, Alignment), String>) -> (r: TranslationOutcome)
        ensures
            match self.error {
                Some(e) => r is Failed && r->Failed_0@ == failed_text(views(self.parts@), e@),
                None => match tidy {
                    Ok(t) => r == TranslationOutcome::Done(t.0, t.1),
                    Err(e) => r == TranslationOutcome::Failed(e),
                },
            },
    {
        match &self.error {
            Some(e) => TranslationOutcome::Failed(failure_text(&self.parts, e.as_str())),
            None => match tidy {
                Ok(t) => TranslationOutcome::Done(t.0, t.1),
                Err(e) => TranslationOutcome::Failed(e),
            },
        }
    }
}

/// Every chunk that is done leaves one less, and an error leaves none: a
/// translation comes to an end.
pub proof fn a_translation_ends(before: TranslationRun, after: TranslationRun, part: Seq<char>, error: String)
    requires
        before.wf(),
        before.goes_on(),
        after.took(before, part) || after == (TranslationRun { error: Some(error), ..before }),
    ensures
        after.wf(),
        after.goes_on() ==> after.chunks@.len() - after.parts@.len() < before.chunks@.len() - before.parts@.len(),
        after.took(before, part) && !after.goes_on() ==> after.parts@.len() == after.chunks@.len(),
{
}

/// The sentences of a chunk are sent with a space between each two.
pub proof fn sentences_are_sent_with_spaces_between(a: Seq<Seq<char>>, b: Seq<Seq<char>>)
    requires
        a.len() > 0,
        b.len() > 0,
    ensures
        a.len() == 1 ==> spaced(a) == a[0],
        spaced(a + b) == spaced(a) + seq![' '] + spaced(b),
    decreases b.len(),
{
    let all = a + b;
    assert(all.drop_last() =~= a + b.drop_last());
    assert(all.last() == b.last());
    if b.len() == 1 {
        assert(a + b.drop_last() =~= a);
        assert(b.last() == b[0]);
    } else {
        sentences_are_sent_with_spaces_between(a, b.drop_last());
        assert(spaced(a) + seq![' '] + spaced(b.drop_last()) + seq![' '] + b.last() =~= spaced(a) + seq![' '] + (spaced(
            b.drop_last(),
        ) + seq![' '] + b.last()));
    }
}

} // verus!
