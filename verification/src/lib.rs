//! Parallel-style parser for Wavefront-style geometry documents.
//!
//! The document is split into line-aligned byte chunks, every line is
//! classified by its leading keyword, the classified line spans are
//! rebalanced into count-balanced buckets, numeric attributes are
//! materialized into exactly pre-sized flat buffers, and face/group lines
//! are assembled into an ordered sequence of drawable groups.  Every phase
//! is a pure function of the document bytes, so the per-worker jobs can be
//! run in any order (or concurrently by an unverified driver); the
//! contracts prove that the composed pipeline equals a single sequential
//! left-to-right parse of the whole document.

use vstd::prelude::*;

pub mod assemble;
pub mod chunk;
pub mod data;
pub mod materialize;
pub mod parser;
pub mod rebalance;
pub mod scalar;
pub mod scan;

verus! {

/// Fixed size of the worker pool the pipeline is sized for.  The parsed
/// result is proved identical for every pool size, so the constant only
/// tunes the work split.
pub const NUM_CORES: usize = 4;

/// Parses a whole in-memory document into its ordered drawable groups,
/// using the default worker count.  Reading the document from storage and
/// displaying the groups belong to the surrounding program.
pub fn run(doc: &[u8]) -> (r: Result<data::Groups, data::ParseError>)
    requires
        doc@.len() <= usize::MAX / 4,
    ensures
        ({
            let m = parser::obj_model(doc@);
            match r {
                Ok(gs) => m == Ok::<Seq<data::GroupView>, data::ErrView>(gs.deep_view()),
                Err(er) => m is Err && er@ == m->Err_0,
            }
        }),
{
    parser::parse_obj_threaded(doc, NUM_CORES)
}

/// The program's configuration: which file to parse.
pub struct Config {
    filename: String,
}

impl Config {
    /// The configured file name, as a mathematical value.
    pub closed spec fn filename_view(&self) -> Seq<char> {
        self.filename@
    }

    /// Reads the configuration from the command line: the first argument
    /// is the program's own name, the second the file to parse.
    pub fn new(args: Vec<String>) -> (r: Result<Config, &'static str>)
        ensures
            args@.len() < 2 ==> r is Err && r->Err_0@ == "Filename not specified."@,
            args@.len() >= 2 ==> r is Ok && r->Ok_0.filename_view() == args@[1]@,
    {
        if args.len() < 2 {
            return Err("Filename not specified.");
        }
        let mut args = args;
        let filename = args.remove(1);
        Ok(Config { filename })
    }

    /// The file the program was asked to parse.
    pub fn filename(&self) -> (r: &String)
        ensures
            r@ == self.filename_view(),
    {
        &self.filename
    }
}

} // verus!
