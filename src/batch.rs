use vstd::prelude::*;
use crate::options::ProcessingOptions;
use crate::text::{contains_text, occurs_in};
use crate::value::text_eq;

verus! {

/// What to do with one file of a batch.
#[derive(Debug, PartialEq, Eq, Structural, Clone, Copy)]
pub enum FilePlan {
    /// Larger than the size limit: refused before it is read.
    TooLarge,
    /// Its name matches an ignore pattern: skipped, counted as done.
    Ignored,
    /// The path has no file name.
    MissingName,
    /// Convert it; `to_markup` tells the direction of the output.
    Convert { to_markup: bool },
}

pub open spec fn ignored_by(name: Seq<char>, patterns: Option<Vec<String>>) -> bool {
    match patterns {
        Some(ps) => exists|j: int| 0 <= j < ps@.len() && occurs_in(name, #[trigger] ps@[j]@),
        None => false,
    }
}

/// The decision for a file of `size` bytes (if its size could be read),
/// named `name`, with extension `ext`. The size limit comes first, then the
/// ignore patterns; a file with extension `xml` is converted to the
/// structured form, any other to markup.
pub open spec fn plan_of(
    size: Option<u64>,
    name: Option<Seq<char>>,
    ext: Option<Seq<char>>,
    o: ProcessingOptions,
) -> FilePlan {
    if size matches Some(s) && s > o.max_file_size {
        FilePlan::TooLarge
    } else if name matches Some(n) && ignored_by(n, o.ignore_patterns) {
        FilePlan::Ignored
    } else if name is None {
        FilePlan::MissingName
    } else {
        FilePlan::Convert { to_markup: !(ext == Some(seq!['x', 'm', 'l'])) }
    }
}

/// A file over the size limit is refused before anything else is decided,
/// whatever its name and the ignore patterns; and a refused file is never
/// counted as processed (see `BatchProcessingStats::record`).
pub proof fn lemma_oversized_refused(
    size: u64,
    name: Option<Seq<char>>,
    ext: Option<Seq<char>>,
    o: ProcessingOptions,
)
    requires
        size > o.max_file_size,
    ensures
        plan_of(Some(size), name, ext, o) == FilePlan::TooLarge,
{
}

/// Decides what to do with one file of a batch, before anything is read.
pub fn plan_file(
    size: Option<u64>,
    name: Option<&str>,
    extension: Option<&str>,
    options: &ProcessingOptions,
) -> (r: FilePlan)
    ensures
        r == plan_of(
            size,
            match name {
                Some(n) => Some(n@),
                None => None,
            },
            match extension {
                Some(e) => Some(e@),
                None => None,
            },
            *options,
        ),
{
    if let Some(s) = size {
        if s > options.max_file_size {
            return FilePlan::TooLarge;
        }
    }
    if let Some(n) = name {
        if let Some(ps) = &options.ignore_patterns {
            let mut j: usize = 0;
            while j < ps.len()
                invariant
                    j <= ps@.len(),
                    options.ignore_patterns == Some(*ps),
                    name == Some(n),
                    !(size matches Some(s) && s > options.max_file_size),
                    forall|k: int| 0 <= k < j ==> !occurs_in(n@, #[trigger] ps@[k]@),
                decreases ps@.len() - j,
            {
                if contains_text(n, ps[j].as_str()) {
                    assert(occurs_in(n@, ps@[j as int]@));
                    return FilePlan::Ignored;
                }
                j = j + 1;
            }
            assert(!ignored_by(n@, options.ignore_patterns));
        }
    } else {
        return FilePlan::MissingName;
    }
    let xml = "xml";
    proof {
        reveal_strlit("xml");
        assert(xml@ =~= seq!['x', 'm', 'l']);
    }
    let is_xml = match extension {
        Some(e) => text_eq(e, xml),
        None => false,
    };
    FilePlan::Convert { to_markup: !is_xml }
}

/// Counts of a batch run.
#[derive(Debug, Clone, Copy)]
pub struct BatchProcessingStats {
    /// Files done, skipped ones included.
    pub processed: usize,
    /// Files that failed or were refused.
    pub errors: usize,
}

impl BatchProcessingStats {
    pub fn new() -> (r: BatchProcessingStats)
        ensures
            r.processed == 0 && r.errors == 0,
    {
        BatchProcessingStats { processed: 0, errors: 0 }
    }

    /// Counts one file given its plan and, for a conversion, whether it
    /// succeeded. A refused file counts as an error, never as processed.
    pub fn record(&mut self, plan: FilePlan, converted: bool)
        requires
            old(self).processed < usize::MAX,
            old(self).errors < usize::MAX,
        ensures
            match plan {
                FilePlan::Ignored => final(self).processed == old(self).processed + 1
                    && final(self).errors == old(self).errors,
                FilePlan::Convert { .. } => if converted {
                    final(self).processed == old(self).processed + 1 && final(self).errors == old(self).errors
                } else {
                    final(self).processed == old(self).processed && final(self).errors == old(self).errors + 1
                },
                _ => final(self).processed == old(self).processed && final(self).errors == old(self).errors + 1,
            },
    {
        match plan {
            FilePlan::Ignored => self.processed = self.processed + 1,
            FilePlan::Convert { .. } => {
                if converted {
                    self.processed = self.processed + 1;
                } else {
                    self.errors = self.errors + 1;
                }
            },
            _ => self.errors = self.errors + 1,
        }
    }
}

} // verus!
