//! Where a model comes from.
use vstd::prelude::*;

use crate::text::{law_trimmed_texts, law_trimming, strip_prefix, trim, trimmed, white_space};

verus! {

/// Where a model comes from.
#[derive(Debug)]
pub enum ModelSource {
    /// A repository on Hugging Face, by its id.
    HuggingFace(String),
    /// A directory, by its path.
    Local(String),
}

/// Why a source is refused.
#[derive(Debug, PartialEq, Eq, Structural, Clone, Copy)]
pub enum SourceError {
    /// There is nothing but white space.
    Empty,
    /// There is no repository id after `hf:`.
    NoRepository,
}

/// The part of a source after `hf:`, where it begins with that.
pub open spec fn repository(source: Seq<char>) -> Option<Seq<char>> {
    if "hf:"@.is_prefix_of(source) {
        Some(source.skip("hf:"@.len() as int))
    } else {
        None
    }
}

impl SourceError {
    /// The text that says why.
    pub fn message(&self) -> (text: String)
        ensures
            text@ == match *self {
                SourceError::Empty => "--source must not be empty"@,
                SourceError::NoRepository =>
                    "HuggingFace source must use the form 'hf:<repo_id>'"@,
            },
    {
        match self {
            SourceError::Empty => "--source must not be empty".to_owned(),
            SourceError::NoRepository => {
                "HuggingFace source must use the form 'hf:<repo_id>'".to_owned()
            },
        }
    }
}

/// What a source is read as: whether it is a repository, and its id or path.
pub open spec fn source_of(raw: Seq<char>) -> Result<(bool, Seq<char>), SourceError> {
    if trimmed(raw).len() == 0 {
        Err(SourceError::Empty)
    } else {
        match repository(trimmed(raw)) {
            Some(repo) => if trimmed(repo).len() == 0 {
                Err(SourceError::NoRepository)
            } else {
                Ok((true, trimmed(repo)))
            },
            None => Ok((false, trimmed(raw))),
        }
    }
}

/// Reads a source: `hf:` and a repository id, or the path of a directory. White space
/// around either is left out.
pub fn parse_source(raw: &str) -> (r: Result<ModelSource, SourceError>)
    ensures
        match (repository(trimmed(raw@)), r) {
            (_, Err(SourceError::Empty)) => trimmed(raw@).len() == 0,
            (Some(repo), Ok(ModelSource::HuggingFace(id))) => trimmed(raw@).len() > 0 && id@
                == trimmed(repo) && id@.len() > 0,
            (Some(repo), Err(SourceError::NoRepository)) => trimmed(raw@).len() > 0 && trimmed(
                repo,
            ).len() == 0,
            (None, Ok(ModelSource::Local(path))) => path@ == trimmed(raw@) && path@.len() > 0,
            _ => false,
        },
        source_of(raw@) == (match r {
            Ok(ModelSource::HuggingFace(id)) => Ok((true, id@)),
            Ok(ModelSource::Local(path)) => Ok((false, path@)),
            Err(e) => Err(e),
        }),
{
    let source = trim(raw);
    if source.as_str().is_empty() {
        return Err(SourceError::Empty);
    }
    match strip_prefix(source.as_str(), "hf:") {
        Some(repo) => {
            assert(source@.skip("hf:"@.len() as int) =~= repo@);
            let id = trim(repo);
            if id.as_str().is_empty() {
                return Err(SourceError::NoRepository);
            }
            Ok(ModelSource::HuggingFace(id))
        },
        None => Ok(ModelSource::Local(source)),
    }
}

/// A source is a repository exactly if it begins with `hf:`, and the repository's id is
/// what follows.
pub proof fn law_repositories(source: Seq<char>, id: Seq<char>)
    ensures
        repository(source) == Some(id) <==> source == seq!['h', 'f', ':'] + id,
        repository(source) is None <==> !(source.len() >= 3 && source[0] == 'h' && source[1] == 'f'
            && source[2] == ':'),
{
    reveal_strlit("hf:");
    assert("hf:"@ =~= seq!['h', 'f', ':']);
    let prefix = seq!['h', 'f', ':'];
    if source == prefix + id {
        assert(source.subrange(0, 3) =~= prefix);
        assert(source.skip(3) =~= id);
    }
    if prefix.is_prefix_of(source) {
        assert(source.subrange(0, 3) =~= prefix);
        assert(source =~= prefix + source.skip(3));
        assert(source[0] == prefix[0] && source[1] == prefix[1] && source[2] == prefix[2]);
    } else if source.len() >= 3 && source[0] == 'h' && source[1] == 'f' && source[2] == ':' {
        assert(source.subrange(0, 3) =~= prefix);
    }
}

/// A text with white space around it, trimmed, is that text.
proof fn lemma_framed(before: Seq<char>, text: Seq<char>, after: Seq<char>)
    requires
        forall|i: int| 0 <= i < before.len() ==> white_space(#[trigger] before[i]),
        forall|i: int| 0 <= i < after.len() ==> white_space(#[trigger] after[i]),
        text.len() > 0,
        !white_space(text[0]),
        !white_space(text[text.len() - 1]),
    ensures
        trimmed(before + text + after) == text,
{
    let whole = before + text + after;
    let (from, to) = law_trimming(whole);
    let (a, b) = (before.len() as int, before.len() + text.len() as int);
    assert(whole[a] == text[0] && whole[b - 1] == text[text.len() - 1]);
    assert(from <= a) by {
        if from > a {
            assert(white_space(whole[a]));
        }
    }
    assert(to >= b) by {
        if to < b {
            assert(white_space(whole[b - 1]));
        }
    }
    assert(from == a) by {
        if from < a {
            assert(whole[from] == before[from]);
        }
    }
    assert(to == b) by {
        if to > b {
            assert(whole[to - 1] == after[to - 1 - b]);
        }
    }
    assert(whole.subrange(a, b) =~= text);
}

/// White space around a source does not count, nor does it between `hf:` and a repository's
/// id. What begins with `hf:` is a repository, and any other source is a path.
pub proof fn law_sources(
    before: Seq<char>,
    between: Seq<char>,
    text: Seq<char>,
    after: Seq<char>,
)
    requires
        forall|i: int| 0 <= i < before.len() ==> white_space(#[trigger] before[i]),
        forall|i: int| 0 <= i < between.len() ==> white_space(#[trigger] between[i]),
        forall|i: int| 0 <= i < after.len() ==> white_space(#[trigger] after[i]),
        text.len() > 0,
        !white_space(text[0]),
        !white_space(text[text.len() - 1]),
    ensures
        source_of(before + (seq!['h', 'f', ':'] + between + text) + after) == Ok::<
            (bool, Seq<char>),
            SourceError,
        >((true, text)),
        !(text.len() >= 3 && text[0] == 'h' && text[1] == 'f' && text[2] == ':') ==> source_of(
            before + text + after,
        ) == Ok::<(bool, Seq<char>), SourceError>((false, text)),
        source_of(before) == Err::<(bool, Seq<char>), SourceError>(SourceError::Empty),
        source_of(before + seq!['h', 'f', ':'] + after) == Err::<(bool, Seq<char>), SourceError>(
            SourceError::NoRepository,
        ),
{
    let hf = seq!['h', 'f', ':'];
    let named = hf + between + text;
    assert(!white_space('h') && !white_space(':'));
    assert(named[named.len() - 1] == text[text.len() - 1]);
    lemma_framed(before, named, after);
    law_repositories(named, between + text);
    assert(named =~= hf + (between + text));
    lemma_framed(between, text, seq![]);
    assert(between + text + seq![] =~= between + text);
    lemma_framed(before, text, after);
    law_repositories(text, text);
    law_trimmed_texts(before);
    lemma_framed(before, hf, after);
    law_repositories(hf, seq![]);
    assert(hf =~= hf + seq![]);
    law_trimmed_texts(Seq::<char>::empty());
}

} // verus!
