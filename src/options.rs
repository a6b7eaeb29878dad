//! Closed sets of named options: similarity measures and embedding formats.
use vstd::prelude::*;

use crate::text::same_chars;

verus! {

/// A name that matches none of the values of an option.
#[derive(Clone, Debug, PartialEq, Eq)]
pub struct UnknownName {
    pub name: String,
}

/// The measure used to score the similarity of two embeddings.
#[derive(Clone, Copy, Debug, PartialEq, Eq, Structural)]
pub enum SimilarityMeasure {
    Angular,
    Cosine,
}

/// The similarity measure called `s`, if there is one.
pub open spec fn measure_named(s: Seq<char>) -> Option<SimilarityMeasure> {
    if s == "angular"@ {
        Some(SimilarityMeasure::Angular)
    } else if s == "cosine"@ {
        Some(SimilarityMeasure::Cosine)
    } else {
        None
    }
}

impl SimilarityMeasure {
    /// Reads a similarity measure from its name.
    pub fn try_from(s: &str) -> (r: Result<SimilarityMeasure, UnknownName>)
        ensures
            match r {
                Ok(m) => measure_named(s@) == Some(m),
                Err(e) => measure_named(s@) is None && e.name@ == s@,
            },
    {
        if same_chars(s, "angular") {
            Ok(SimilarityMeasure::Angular)
        } else if same_chars(s, "cosine") {
            Ok(SimilarityMeasure::Cosine)
        } else {
            Err(UnknownName { name: s.to_owned() })
        }
    }

    /// The name of the measure.
    pub fn name(&self) -> (r: &'static str)
        ensures
            measure_named(r@) == Some(*self),
    {
        proof {
            reveal_strlit("angular");
            reveal_strlit("cosine");
            assert("angular"@.len() == 7);
            assert("cosine"@.len() == 6);
        }
        match self {
            SimilarityMeasure::Angular => "angular",
            SimilarityMeasure::Cosine => "cosine",
        }
    }
}

/// A file format of embeddings.
#[derive(Clone, Copy, Debug, PartialEq, Eq, Structural)]
pub enum EmbeddingFormat {
    FastText,
    FinalFusion,
    FinalFusionMmap,
    Floret,
    Word2Vec,
    Text,
    TextDims,
}

/// The embedding format called `s`, if there is one.
pub open spec fn format_named(s: Seq<char>) -> Option<EmbeddingFormat> {
    if s == "fasttext"@ {
        Some(EmbeddingFormat::FastText)
    } else if s == "finalfusion"@ {
        Some(EmbeddingFormat::FinalFusion)
    } else if s == "finalfusion_mmap"@ {
        Some(EmbeddingFormat::FinalFusionMmap)
    } else if s == "floret"@ {
        Some(EmbeddingFormat::Floret)
    } else if s == "word2vec"@ {
        Some(EmbeddingFormat::Word2Vec)
    } else if s == "text"@ {
        Some(EmbeddingFormat::Text)
    } else if s == "textdims"@ {
        Some(EmbeddingFormat::TextDims)
    } else {
        None
    }
}

impl EmbeddingFormat {
    /// Reads an embedding format from its name.
    pub fn try_from(s: &str) -> (r: Result<EmbeddingFormat, UnknownName>)
        ensures
            match r {
                Ok(f) => format_named(s@) == Some(f),
                Err(e) => format_named(s@) is None && e.name@ == s@,
            },
    {
        if same_chars(s, "fasttext") {
            Ok(EmbeddingFormat::FastText)
        } else if same_chars(s, "finalfusion") {
            Ok(EmbeddingFormat::FinalFusion)
        } else if same_chars(s, "finalfusion_mmap") {
            Ok(EmbeddingFormat::FinalFusionMmap)
        } else if same_chars(s, "floret") {
            Ok(EmbeddingFormat::Floret)
        } else if same_chars(s, "word2vec") {
            Ok(EmbeddingFormat::Word2Vec)
        } else if same_chars(s, "text") {
            Ok(EmbeddingFormat::Text)
        } else if same_chars(s, "textdims") {
            Ok(EmbeddingFormat::TextDims)
        } else {
            Err(UnknownName { name: s.to_owned() })
        }
    }

    /// The name of the format.
    pub fn name(&self) -> (r: &'static str)
        ensures
            format_named(r@) == Some(*self),
    {
        proof {
            reveal_strlit("fasttext");
            reveal_strlit("finalfusion");
            reveal_strlit("finalfusion_mmap");
            reveal_strlit("floret");
            reveal_strlit("word2vec");
            reveal_strlit("text");
            reveal_strlit("textdims");
            assert("fasttext"@.len() == 8 && "fasttext"@[0] == 'f');
            assert("finalfusion"@.len() == 11);
            assert("finalfusion_mmap"@.len() == 16);
            assert("floret"@.len() == 6);
            assert("word2vec"@.len() == 8 && "word2vec"@[0] == 'w');
            assert("text"@.len() == 4);
            assert("textdims"@.len() == 8 && "textdims"@[0] == 't');
        }
        match self {
            EmbeddingFormat::FastText => "fasttext",
            EmbeddingFormat::FinalFusion => "finalfusion",
            EmbeddingFormat::FinalFusionMmap => "finalfusion_mmap",
            EmbeddingFormat::Floret => "floret",
            EmbeddingFormat::Word2Vec => "word2vec",
            EmbeddingFormat::Text => "text",
            EmbeddingFormat::TextDims => "textdims",
        }
    }

    /// Whether embeddings can be written in this format; fastText, floret and
    /// memory-mapped finalfusion files are read-only.
    pub fn writable(&self) -> (r: bool)
        ensures
            r == !(*self == EmbeddingFormat::FastText || *self == EmbeddingFormat::FinalFusionMmap
                || *self == EmbeddingFormat::Floret),
    {
        match self {
            EmbeddingFormat::FastText | EmbeddingFormat::FinalFusionMmap
            | EmbeddingFormat::Floret => false,
            _ => true,
        }
    }
}

} // verus!
