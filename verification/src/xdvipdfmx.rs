//! Settings of the xdvipdfmx converter (DVI to PDF).
use vstd::prelude::*;

verus! {

/// The DVI-to-PDF engine and its two switches.
pub struct XdvipdfmxEngine {
    enable_compression: bool,
    deterministic_tags: bool,
}

impl XdvipdfmxEngine {
    pub closed spec fn compression(&self) -> bool {
        self.enable_compression
    }

    pub closed spec fn deterministic(&self) -> bool {
        self.deterministic_tags
    }

    /// An engine that compresses its output and uses random font tags.
    pub fn new() -> (r: XdvipdfmxEngine)
        ensures
            r.compression(),
            !r.deterministic(),
    {
        XdvipdfmxEngine { enable_compression: true, deterministic_tags: false }
    }

    /// Turns stream compression on or off.
    pub fn with_compression(self, enable_compression: bool) -> (r: Self)
        ensures
            r.compression() == enable_compression,
            r.deterministic() == self.deterministic(),
    {
        let mut s = self;
        s.enable_compression = enable_compression;
        s
    }

    /// Turns deterministic font-subset tags on or off.
    pub fn with_deterministic_tags(self, flag: bool) -> (r: Self)
        ensures
            r.deterministic() == flag,
            r.compression() == self.compression(),
    {
        let mut s = self;
        s.deterministic_tags = flag;
        s
    }

    /// Whether stream compression is on.
    pub fn is_compression_enabled(&self) -> (r: bool)
        ensures
            r == self.compression(),
    {
        self.enable_compression
    }

    /// Whether deterministic tags are on.
    pub fn uses_deterministic_tags(&self) -> (r: bool)
        ensures
            r == self.deterministic(),
    {
        self.deterministic_tags
    }

    /// The paper size handed to the converter: the one asked for, or
    /// "letter".
    pub fn paperspec(paper_size: Option<String>) -> (r: String)
        ensures
            match paper_size {
                Some(s) => r@ == s@,
                None => r@ == "letter"@,
            },
    {
        match paper_size {
            Some(s) => s,
            None => String::from_str("letter"),
        }
    }

    /// What a run of the converter returns, from its exit code: 99 is the
    /// code of a failure whose message the caller fetches.
    pub fn process_result(code: i32) -> (r: Result<i32, ()>)
        ensures
            code == 99 ==> r is Err,
            code != 99 ==> r == Ok::<i32, ()>(code),
    {
        if code == 99 {
            Err(())
        } else {
            Ok(code)
        }
    }
}

impl Default for XdvipdfmxEngine {
    fn default() -> (r: Self)
        ensures
            r.compression(),
            !r.deterministic(),
    {
        XdvipdfmxEngine::new()
    }
}

} // verus!
