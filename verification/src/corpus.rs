use vstd::prelude::*;

use crate::bytes::bytes_eq;
use crate::types::CorpusError;
use vstd::string::StringSliceAdditionalSpecFns;

verus! {

// ----------------------------------------------------------------------------
// Corpus selection: which of the supported formats an input path holds.
// ----------------------------------------------------------------------------

#[derive(Clone, Copy, PartialEq, Eq, Structural, Debug)]
pub enum CorpusType {
    OpenSubtitles2018,
    NewsCrawlWMT18,
    Conllu,
    Vrt,
}

pub open spec fn opensubs_flag() -> Seq<u8> {
    seq![111u8, 112u8, 101u8, 110u8, 115u8, 117u8, 98u8, 115u8, 49u8, 56u8]
}

pub open spec fn newscrawl_flag() -> Seq<u8> {
    seq![110u8, 101u8, 119u8, 115u8, 99u8, 114u8, 97u8, 119u8, 108u8]
}

pub open spec fn conllu_flag() -> Seq<u8> {
    seq![99u8, 111u8, 110u8, 108u8, 108u8, 117u8]
}

pub open spec fn vrt_flag() -> Seq<u8> {
    seq![118u8, 114u8, 116u8]
}

impl CorpusType {
    /// Parses the corpus-type flag (its UTF-8 bytes).  Anything but the four
    /// known flags is a configuration error.
    pub fn from_flag(s: &[u8]) -> (r: Result<CorpusType, CorpusError>)
        ensures
            r == if s@ == opensubs_flag() {
                Ok::<CorpusType, CorpusError>(CorpusType::OpenSubtitles2018)
            } else if s@ == newscrawl_flag() {
                Ok::<CorpusType, CorpusError>(CorpusType::NewsCrawlWMT18)
            } else if s@ == conllu_flag() {
                Ok::<CorpusType, CorpusError>(CorpusType::Conllu)
            } else if s@ == vrt_flag() {
                Ok::<CorpusType, CorpusError>(CorpusType::Vrt)
            } else {
                Err::<CorpusType, CorpusError>(r->Err_0)
            },
            r is Err ==> r->Err_0 is Config,
    {
        let mut pat: Vec<u8> = Vec::new();
        pat.push(111);
        pat.push(112);
        pat.push(101);
        pat.push(110);
        pat.push(115);
        pat.push(117);
        pat.push(98);
        pat.push(115);
        pat.push(49);
        pat.push(56);
        proof {
            assert(pat@ =~= opensubs_flag());
        }
        if bytes_eq(s, pat.as_slice()) {
            return Ok(CorpusType::OpenSubtitles2018);
        }
        let mut pat2: Vec<u8> = Vec::new();
        pat2.push(110);
        pat2.push(101);
        pat2.push(119);
        pat2.push(115);
        pat2.push(99);
        pat2.push(114);
        pat2.push(97);
        pat2.push(119);
        pat2.push(108);
        proof {
            assert(pat2@ =~= newscrawl_flag());
        }
        if bytes_eq(s, pat2.as_slice()) {
            return Ok(CorpusType::NewsCrawlWMT18);
        }
        let mut pat3: Vec<u8> = Vec::new();
        pat3.push(99);
        pat3.push(111);
        pat3.push(110);
        pat3.push(108);
        pat3.push(108);
        pat3.push(117);
        proof {
            assert(pat3@ =~= conllu_flag());
        }
        if bytes_eq(s, pat3.as_slice()) {
            return Ok(CorpusType::Conllu);
        }
        let mut pat4: Vec<u8> = Vec::new();
        pat4.push(118);
        pat4.push(114);
        pat4.push(116);
        proof {
            assert(pat4@ =~= vrt_flag());
        }
        if bytes_eq(s, pat4.as_slice()) {
            return Ok(CorpusType::Vrt);
        }
        Err(
            CorpusError::Config {
                detail: String::from_str("must be opensubs18, newscrawl, conllu or vrt"),
            },
        )
    }

    /// Parses the corpus-type flag from a string.
    pub fn from_str(s: &str) -> (r: Result<CorpusType, CorpusError>)
        ensures
            r == if s.spec_bytes() == opensubs_flag() {
                Ok::<CorpusType, CorpusError>(CorpusType::OpenSubtitles2018)
            } else if s.spec_bytes() == newscrawl_flag() {
                Ok::<CorpusType, CorpusError>(CorpusType::NewsCrawlWMT18)
            } else if s.spec_bytes() == conllu_flag() {
                Ok::<CorpusType, CorpusError>(CorpusType::Conllu)
            } else if s.spec_bytes() == vrt_flag() {
                Ok::<CorpusType, CorpusError>(CorpusType::Vrt)
            } else {
                Err::<CorpusType, CorpusError>(r->Err_0)
            },
            r is Err ==> r->Err_0 is Config,
    {
        CorpusType::from_flag(s.as_bytes())
    }
}

} // verus!
