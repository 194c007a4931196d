use vstd::prelude::*;

verus! {

/// The runtime error codes an INTERCAL program can stop with.
#[allow(non_camel_case_types)]
#[derive(Clone, Copy, PartialEq, Eq, Structural, Debug)]
pub enum ErrCode {
    IE000,
    IE123,
    IE129,
    IE240,
    IE241,
    IE252,
    IE275,
    IE436,
    IE533,
    IE562,
    IE579,
    IE621,
    IE632,
    IE633,
}

impl ErrCode {
    /// The number under which the error is reported.
    pub open spec fn spec_number(self) -> u16 {
        match self {
            ErrCode::IE000 => 0,
            ErrCode::IE123 => 123,
            ErrCode::IE129 => 129,
            ErrCode::IE240 => 240,
            ErrCode::IE241 => 241,
            ErrCode::IE252 => 252,
            ErrCode::IE275 => 275,
            ErrCode::IE436 => 436,
            ErrCode::IE533 => 533,
            ErrCode::IE562 => 562,
            ErrCode::IE579 => 579,
            ErrCode::IE621 => 621,
            ErrCode::IE632 => 632,
            ErrCode::IE633 => 633,
        }
    }

    /// The number under which the error is reported.
    #[verifier::when_used_as_spec(spec_number)]
    pub fn number(self) -> (n: u16)
        ensures
            n == self.spec_number(),
    {
        match self {
            ErrCode::IE000 => 0,
            ErrCode::IE123 => 123,
            ErrCode::IE129 => 129,
            ErrCode::IE240 => 240,
            ErrCode::IE241 => 241,
            ErrCode::IE252 => 252,
            ErrCode::IE275 => 275,
            ErrCode::IE436 => 436,
            ErrCode::IE533 => 533,
            ErrCode::IE562 => 562,
            ErrCode::IE579 => 579,
            ErrCode::IE621 => 621,
            ErrCode::IE632 => 632,
            ErrCode::IE633 => 633,
        }
    }

    /// An error of this kind, with no line attached yet.
    pub fn err<T>(self) -> (r: Res<T>)
        ensures
            r matches Err(e) && e.code == self && e.word is None && e.line == 0,
    {
        Err(RtError { code: self, word: None, line: 0 })
    }

    /// An error of this kind, with the offending word (if any) and the line.
    pub fn err_with<T>(self, word: Option<String>, line: usize) -> (r: Res<T>)
        ensures
            r matches Err(e) && e.code == self && e.word == word && e.line == line,
    {
        Err(RtError { code: self, word, line })
    }
}

/// A runtime error: its code, the word it concerns (for bad input), and the
/// source line it is reported at.
#[derive(Clone, Debug)]
pub struct RtError {
    pub code: ErrCode,
    pub word: Option<String>,
    pub line: usize,
}

/// What an error says: its code, the word it concerns, and its line.
pub struct ErrView {
    pub code: ErrCode,
    pub word: Option<Seq<char>>,
    pub line: usize,
}

impl View for RtError {
    type V = ErrView;

    open spec fn view(&self) -> ErrView {
        ErrView {
            code: self.code,
            word: match self.word {
                Some(w) => Some(w@),
                None => None,
            },
            line: self.line,
        }
    }
}

impl RtError {
    /// An error saying the same as this one.
    pub fn duplicate(&self) -> (r: RtError)
        ensures
            r@ == self@,
    {
        let word = match &self.word {
            Some(w) => Some(w.clone()),
            None => None,
        };
        RtError { code: self.code, word, line: self.line }
    }

    /// Report the error at another line.
    pub fn set_line(&mut self, line: usize)
        ensures
            final(self).line == line,
            final(self).code == old(self).code,
            final(self).word == old(self).word,
    {
        self.line = line;
    }
}

/// The result of a runtime operation that may fail with an INTERCAL error.
pub type Res<T> = Result<T, RtError>;

} // verus!
