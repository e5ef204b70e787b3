use vstd::prelude::*;
use vstd::string::*;
use vstd::utf8::is_ascii_chars;

verus! {

/// Where a job is in its life.
#[derive(Debug, Clone, Copy, PartialEq, Eq, Hash, Structural)]
pub enum JobState {
    /// Waiting to be leased.
    Available,
    /// Leased by a worker.
    Running,
    /// Finished with success.
    Completed,
    /// Finished with failure.
    Failed,
    /// Held back: not finished, and not offered to workers.
    Paused,
}

/// The lower-case form of an ASCII capital letter; any other character is kept.
pub open spec fn fold_ascii(c: char) -> char {
    if 'A' <= c <= 'Z' {
        ((c as u8) + 32) as char
    } else {
        c
    }
}

/// A text with its ASCII capital letters folded to lower case.
pub open spec fn folded(s: Seq<char>) -> Seq<char> {
    Seq::new(s.len(), |i: int| fold_ascii(s[i]))
}

/// The state that a text names. Letter case is ignored; `paused` is not a name that can
/// be read.
pub open spec fn parse_state(s: Seq<char>) -> Option<JobState> {
    let t = folded(s);
    if t == "available"@ {
        Some(JobState::Available)
    } else if t == "running"@ {
        Some(JobState::Running)
    } else if t == "completed"@ {
        Some(JobState::Completed)
    } else if t == "failed"@ {
        Some(JobState::Failed)
    } else {
        None
    }
}

/// A word of lower-case ASCII letters.
pub open spec fn is_lower_word(w: Seq<char>) -> bool {
    forall|i: int| 0 <= i < w.len() ==> 'a' <= #[trigger] w[i] <= 'z'
}

/// Whether `s` is `word` up to the case of its ASCII letters.
fn is_word(s: &str, word: &str) -> (b: bool)
    requires
        is_lower_word(word@),
    ensures
        b == (folded(s@) == word@),
{
    if !s.is_ascii() {
        proof {
            let i = choose|i: int| 0 <= i < s@.len() && !('\0' <= #[trigger] s@[i] <= '\u{7f}');
            assert(folded(s@)[i] == s@[i]);
            if folded(s@) == word@ {
                assert('a' <= word@[i] <= 'z');
            }
        }
        return false;
    }
    assert(is_ascii_chars(word@)) by {
        assert forall|i: int| 0 <= i < word@.len() implies '\0' <= #[trigger] word@[i]
            <= '\u{7f}' by {
            assert('a' <= word@[i] <= 'z');
        }
    }
    let n = s.unicode_len();
    if n != word.unicode_len() {
        return false;
    }
    let mut i: usize = 0;
    while i < n
        invariant
            n == s@.len(),
            n == word@.len(),
            s.is_ascii(),
            word.is_ascii(),
            is_lower_word(word@),
            i <= n,
            forall|k: int| 0 <= k < i ==> fold_ascii(s@[k]) == word@[k],
        decreases n - i,
    {
        let c = s.get_ascii(i);
        let w = word.get_ascii(i);
        let lower = if 65 <= c && c <= 90 {
            c + 32
        } else {
            c
        };
        proof {
            let sc = s@[i as int];
            let wc = word@[i as int];
            assert('\0' <= sc <= '\u{7f}');
            assert('a' <= wc <= 'z');
            assert(fold_ascii(sc) as u8 == lower);
            assert(wc as u8 == w);
            if lower == w {
                assert(fold_ascii(sc) == wc);
            }
        }
        if lower != w {
            assert(folded(s@)[i as int] != word@[i as int]);
            return false;
        }
        i += 1;
    }
    assert(folded(s@) =~= word@);
    true
}

impl JobState {
    /// Completed and failed jobs are finished: no lease can change them any more.
    pub open spec fn terminal(self) -> bool {
        self == JobState::Completed || self == JobState::Failed
    }

    /// Decides [`JobState::terminal`].
    pub fn is_terminal(&self) -> (b: bool)
        ensures
            b == self.terminal(),
    {
        match self {
            JobState::Completed | JobState::Failed => true,
            _ => false,
        }
    }

    /// The name under which the state is persisted.
    pub open spec fn name(self) -> Seq<char> {
        match self {
            JobState::Available => "available"@,
            JobState::Running => "running"@,
            JobState::Completed => "completed"@,
            JobState::Failed => "failed"@,
            JobState::Paused => "paused"@,
        }
    }

    /// The name under which the state is persisted.
    pub fn as_str(&self) -> (text: &'static str)
        ensures
            text@ == self.name(),
    {
        match self {
            JobState::Available => "available",
            JobState::Running => "running",
            JobState::Completed => "completed",
            JobState::Failed => "failed",
            JobState::Paused => "paused",
        }
    }

    /// Reads a state from its name, whatever the case of its letters. Only the four
    /// states that a worker or the janitor can bring about have a readable name.
    pub fn from_str(s: &str) -> (r: Result<JobState, ()>)
        ensures
            match r {
                Ok(state) => parse_state(s@) == Some(state),
                Err(_) => parse_state(s@) is None,
            },
    {
        proof {
            reveal_strlit("available");
            reveal_strlit("running");
            reveal_strlit("completed");
            reveal_strlit("failed");
        }
        if is_word(s, "available") {
            Ok(JobState::Available)
        } else if is_word(s, "running") {
            Ok(JobState::Running)
        } else if is_word(s, "completed") {
            Ok(JobState::Completed)
        } else if is_word(s, "failed") {
            Ok(JobState::Failed)
        } else {
            Err(())
        }
    }
}

impl std::str::FromStr for JobState {
    type Err = ();

    fn from_str(s: &str) -> (r: Result<JobState, ()>)
        ensures
            match r {
                Ok(state) => parse_state(s@) == Some(state),
                Err(_) => parse_state(s@) is None,
            },
    {
        JobState::from_str(s)
    }
}

} // verus!
