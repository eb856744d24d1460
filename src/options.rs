use vstd::prelude::*;

verus! {

/// Options for processing configuration files in bulk.
#[derive(Debug, Clone)]
pub struct ProcessingOptions {
    /// Largest input accepted, in bytes.
    pub max_file_size: u64,
    /// Deepest directory level walked.
    pub max_depth: u32,
    /// Number of worker threads, if fixed.
    pub workers: Option<usize>,
    /// Files whose names contain one of these are skipped.
    pub ignore_patterns: Option<Vec<String>>,
    /// Keep a copy of an output file that is about to be replaced.
    pub create_backup: bool,
    /// Check the output after converting.
    pub verify_output: bool,
    /// Print nothing.
    pub silent: bool,
    /// Print statistics at the end.
    pub show_stats: bool,
}

/// The defaults: a 10 MiB size limit, depth 10, output verification and
/// statistics on, everything else off.
pub open spec fn default_options() -> ProcessingOptions {
    ProcessingOptions {
        max_file_size: (10 * 1024 * 1024) as u64,
        max_depth: 10,
        workers: None,
        ignore_patterns: None,
        create_backup: false,
        verify_output: true,
        silent: false,
        show_stats: true,
    }
}

impl Default for ProcessingOptions {
    fn default() -> (r: ProcessingOptions)
        ensures
            r == default_options(),
    {
        ProcessingOptions {
            max_file_size: 10 * 1024 * 1024,
            max_depth: 10,
            workers: None,
            ignore_patterns: None,
            create_backup: false,
            verify_output: true,
            silent: false,
            show_stats: true,
        }
    }
}

/// Builds `ProcessingOptions` one setting at a time, from the defaults.
pub struct ProcessingOptionsBuilder {
    options: ProcessingOptions,
}

impl View for ProcessingOptionsBuilder {
    type V = ProcessingOptions;

    closed spec fn view(&self) -> ProcessingOptions {
        self.options
    }
}

impl ProcessingOptionsBuilder {
    pub fn new() -> (r: ProcessingOptionsBuilder)
        ensures
            r@ == default_options(),
    {
        ProcessingOptionsBuilder { options: ProcessingOptions::default() }
    }

    pub fn max_file_size(self, size: u64) -> (r: ProcessingOptionsBuilder)
        ensures
            r@ == (ProcessingOptions { max_file_size: size, ..self@ }),
    {
        let mut s = self;
        s.options.max_file_size = size;
        s
    }

    pub fn max_depth(self, depth: u32) -> (r: ProcessingOptionsBuilder)
        ensures
            r@ == (ProcessingOptions { max_depth: depth, ..self@ }),
    {
        let mut s = self;
        s.options.max_depth = depth;
        s
    }

    pub fn workers(self, workers: Option<usize>) -> (r: ProcessingOptionsBuilder)
        ensures
            r@ == (ProcessingOptions { workers, ..self@ }),
    {
        let mut s = self;
        s.options.workers = workers;
        s
    }

    pub fn ignore_patterns(self, patterns: Option<Vec<String>>) -> (r: ProcessingOptionsBuilder)
        ensures
            r@ == (ProcessingOptions { ignore_patterns: patterns, ..self@ }),
    {
        let mut s = self;
        s.options.ignore_patterns = patterns;
        s
    }

    pub fn create_backup(self, create: bool) -> (r: ProcessingOptionsBuilder)
        ensures
            r@ == (ProcessingOptions { create_backup: create, ..self@ }),
    {
        let mut s = self;
        s.options.create_backup = create;
        s
    }

    pub fn verify_output(self, verify: bool) -> (r: ProcessingOptionsBuilder)
        ensures
            r@ == (ProcessingOptions { verify_output: verify, ..self@ }),
    {
        let mut s = self;
        s.options.verify_output = verify;
        s
    }

    pub fn silent(self, silent: bool) -> (r: ProcessingOptionsBuilder)
        ensures
            r@ == (ProcessingOptions { silent, ..self@ }),
    {
        let mut s = self;
        s.options.silent = silent;
        s
    }

    pub fn show_stats(self, show: bool) -> (r: ProcessingOptionsBuilder)
        ensures
            r@ == (ProcessingOptions { show_stats: show, ..self@ }),
    {
        let mut s = self;
        s.options.show_stats = show;
        s
    }

    pub fn build(self) -> (r: ProcessingOptions)
        ensures
            r == self@,
    {
        self.options
    }
}

impl Default for ProcessingOptionsBuilder {
    fn default() -> (r: ProcessingOptionsBuilder)
        ensures
            r@ == default_options(),
    {
        ProcessingOptionsBuilder::new()
    }
}

} // verus!
