//! What loading a journal decides, apart from reading files: which errors a load can end in, how
//! they read, and the cycle check on `include` chains. Reading the files themselves, and
//! resolving an included path against the including file's directory, is the caller's part.
use crate::model::{transactions_view, Transaction};
use crate::parser::{error_text, ParseError, ParseErrorView, ParsedJournal};
use crate::text::strings_equal;
use vstd::prelude::*;

verus! {

broadcast use vstd::string::group_string_axioms;

/// Everything that can go wrong loading a journal.
#[derive(Debug)]
pub enum JournalError {
    /// A journal file (the top-level one, or one reached by `include`) could not be read.
    Io {
        /// The path that failed to read.
        path: String,
        /// What the operating system reported.
        message: String,
    },
    /// The journal text did not parse or balance.
    Parse(ParseError),
    /// An `include` re-enters a file that is already being loaded.
    CircularInclude {
        /// The path whose inclusion would re-enter a file being loaded.
        path: String,
    },
}

/// The view of a [`JournalError`].
pub enum JournalErrorView {
    Io { path: Seq<char>, message: Seq<char> },
    Parse(ParseErrorView),
    CircularInclude { path: Seq<char> },
}

impl View for JournalError {
    type V = JournalErrorView;

    open spec fn view(&self) -> JournalErrorView {
        match self {
            JournalError::Io { path, message } => JournalErrorView::Io {
                path: path@,
                message: message@,
            },
            JournalError::Parse(e) => JournalErrorView::Parse(e@),
            JournalError::CircularInclude { path } => JournalErrorView::CircularInclude {
                path: path@,
            },
        }
    }
}

/// How a load error is written.
pub open spec fn journal_error_text(e: JournalErrorView) -> Seq<char> {
    match e {
        JournalErrorView::Io { path, message } => "failed to read '"@ + path + "': "@ + message,
        JournalErrorView::Parse(p) => error_text(p),
        JournalErrorView::CircularInclude { path } => "circular include detected at '"@ + path
            + "'"@,
    }
}

impl JournalError {
    /// The error as text: a read failure names the path and the cause, a parse error is
    /// written as `FILE:LINE: MESSAGE`, and a cycle names the path that closes it.
    pub fn to_text(&self) -> (r: String)
        ensures
            r@ == journal_error_text(self@),
    {
        match self {
            JournalError::Io { path, message } => {
                let mut out = "failed to read '".to_owned();
                out.append(path.as_str());
                out.append("': ");
                out.append(message.as_str());
                out
            },
            JournalError::Parse(e) => e.to_text(),
            JournalError::CircularInclude { path } => {
                let mut out = "circular include detected at '".to_owned();
                out.append(path.as_str());
                out.append("'");
                out
            },
        }
    }
}

/// Whether the outcome is the cycle error naming `path`.
pub open spec fn is_cycle_at(r: Result<(), JournalError>, path: Seq<char>) -> bool {
    match r {
        Err(e) => e@ == (JournalErrorView::CircularInclude { path }),
        Ok(_) => false,
    }
}

/// The view of a list of strings as a set.
pub open spec fn names_set(v: Seq<String>) -> Set<Seq<char>> {
    v.map_values(|s: String| s@).to_set()
}

/// The files being loaded along the current chain of `include`s, by canonical path.
pub struct IncludeStack {
    visiting: Vec<String>,
}

impl IncludeStack {
    /// The canonical paths being loaded.
    pub closed spec fn files(&self) -> Set<Seq<char>> {
        names_set(self.visiting@)
    }

    /// No file is being loaded.
    pub fn new() -> (r: IncludeStack)
        ensures
            r.files() == Set::<Seq<char>>::empty(),
    {
        let r = IncludeStack { visiting: Vec::new() };
        assert(r.files() =~= Set::<Seq<char>>::empty());
        r
    }

    /// Starts loading the file with canonical path `canonical`, shown as `path`: a file that
    /// is already being loaded closes a cycle, and is refused.
    pub fn enter(&mut self, canonical: &str, path: &str) -> (r: Result<(), JournalError>)
        ensures
            old(self).files().contains(canonical@) ==> is_cycle_at(r, path@) && final(self).files()
                == old(self).files(),
            !old(self).files().contains(canonical@) ==> r is Ok && final(self).files() == old(
                self,
            ).files().insert(canonical@),
    {
        let c = canonical.to_owned();
        let ghost names = self.visiting@.map_values(|s: String| s@);
        let mut i: usize = 0;
        while i < self.visiting.len()
            invariant
                0 <= i <= self.visiting.len(),
                names == self.visiting@.map_values(|s: String| s@),
                c@ == canonical@,
                forall|k: int| 0 <= k < i ==> names[k] != canonical@,
            decreases self.visiting.len() - i,
        {
            if strings_equal(&self.visiting[i], &c) {
                assert(names[i as int] == canonical@);
                assert(names.to_set().contains(canonical@));
                return Err(JournalError::CircularInclude { path: path.to_owned() });
            }
            i += 1;
        }
        assert(!names.to_set().contains(canonical@));
        self.visiting.push(c);
        assert(self.visiting@.map_values(|s: String| s@) =~= names.push(canonical@));
        proof {
            names.lemma_push_to_set_commute(canonical@);
        }
        Ok(())
    }

    /// Finishes loading the file with canonical path `canonical`.
    pub fn leave(&mut self, canonical: &str)
        ensures
            final(self).files() == old(self).files().remove(canonical@),
    {
        let ghost start = self.visiting@.map_values(|s: String| s@);
        let c = canonical.to_owned();
        let mut kept: Vec<String> = Vec::new();
        let mut i: usize = 0;
        while i < self.visiting.len()
            invariant
                0 <= i <= self.visiting.len(),
                start == self.visiting@.map_values(|s: String| s@),
                c@ == canonical@,
                names_set(kept@) == start.take(i as int).to_set().remove(canonical@),
            decreases self.visiting.len() - i,
        {
            let ghost before = kept@.map_values(|s: String| s@);
            if !strings_equal(&self.visiting[i], &c) {
                kept.push(self.visiting[i].clone());
                assert(kept@.map_values(|s: String| s@) =~= before.push(start[i as int]));
            }
            proof {
                assert(start.take(i + 1) =~= start.take(i as int).push(start[i as int]));
                start.take(i as int).lemma_push_to_set_commute(start[i as int]);
                before.lemma_push_to_set_commute(start[i as int]);
                assert(start[i as int] == self.visiting@[i as int]@);
                assert(names_set(kept@) =~= start.take(i + 1).to_set().remove(canonical@));
            }
            i += 1;
        }
        assert(start.take(self.visiting.len() as int) =~= start);
        self.visiting = kept;
    }
}


/// Takes in one loaded file: its own transactions are appended to `out`, in order, ahead of
/// anything its includes contribute; the include paths come back, in the order written, to be
/// loaded next (each relative to the including file's directory) and appended after.
pub fn take_file(out: &mut Vec<Transaction>, parsed: ParsedJournal) -> (includes: Vec<String>)
    ensures
        transactions_view(final(out)@) == transactions_view(old(out)@) + parsed@.transactions,
        includes@.map_values(|p: String| p@) == parsed@.includes.map_values(
            |i: crate::parser::IncludeView| i.path,
        ),
{
    let ParsedJournal { transactions, includes: directives } = parsed;
    let ghost start = transactions_view(out@);
    let ghost tv = transactions_view(transactions@);
    let mut rest = transactions;
    let n = rest.len();
    let mut i: usize = 0;
    assert(tv.take(0) =~= Seq::<crate::model::TransactionView>::empty());
    assert(start + tv.take(0) =~= start);
    while i < n
        invariant
            0 <= i <= n,
            n == tv.len(),
            transactions_view(rest@) == tv.skip(i as int),
            transactions_view(out@) == start + tv.take(i as int),
        decreases n - i,
    {
        assert(transactions_view(rest@).len() == rest@.len());
        assert(transactions_view(rest@)[0] == tv[i as int]);
        let ghost rv = transactions_view(rest@);
        let t = rest.remove(0);
        assert(transactions_view(rest@) =~= rv.drop_first());
        assert(tv.skip(i as int).drop_first() =~= tv.skip(i + 1));
        let ghost ov = transactions_view(out@);
        out.push(t);
        assert(transactions_view(out@) =~= ov.push(tv[i as int]));
        assert(tv.take(i + 1) =~= tv.take(i as int).push(tv[i as int]));
        i += 1;
    }
    assert(tv.take(n as int) =~= tv);
    let ghost dv = directives@.map_values(|d: crate::parser::IncludeDirective| d@.path);
    let mut paths: Vec<String> = Vec::new();
    let mut j: usize = 0;
    while j < directives.len()
        invariant
            0 <= j <= directives.len(),
            dv == directives@.map_values(|d: crate::parser::IncludeDirective| d@.path),
            paths@.map_values(|p: String| p@) == dv.take(j as int),
        decreases directives.len() - j,
    {
        let ghost before = paths@.map_values(|p: String| p@);
        paths.push(directives[j].path.clone());
        assert(paths@.map_values(|p: String| p@) =~= before.push(dv[j as int]));
        assert(dv.take(j + 1) =~= dv.take(j as int).push(dv[j as int]));
        j += 1;
    }
    assert(dv.take(directives.len() as int) =~= dv);
    assert(parsed@.includes.map_values(|i: crate::parser::IncludeView| i.path) =~= dv);
    paths
}

} // verus!
