//! The files of a model.
use std::path::{Path, PathBuf};
use vstd::prelude::*;

use crate::text::{
    characters, decimal, decimal_text, digit, law_decimal_digits, stands_at,
};

verus! {

#[verifier::external_type_specification]
#[verifier::external_body]
pub struct ExPathBuf(PathBuf);

#[verifier::external_type_specification]
#[verifier::external_body]
pub struct ExPath(Path);

/// The text of a path, where it is one.
pub uninterp spec fn path_text(path: PathBuf) -> Option<Seq<char>>;

/// The text of a borrowed path, where it is one.
pub uninterp spec fn borrowed_path_text(path: &Path) -> Option<Seq<char>>;

/// A character that separates the parts of a path, on one platform or another.
pub open spec fn separates(c: char) -> bool {
    c == '/' || c == '\\'
}

/// A path that goes on from a directory on every platform: it does not begin with a
/// separator, and names no drive.
pub open spec fn relative(path: Seq<char>) -> bool {
    path.len() > 0 && !separates(path[0]) && !path.contains(':')
}

/// A path of one part, which is the name of a file.
pub open spec fn single(path: Seq<char>) -> bool {
    &&& relative(path)
    &&& forall|c: char| #[trigger] separates(c) ==> !path.contains(c)
    &&& path != seq!['.']
    &&& path != seq!['.', '.']
}

/// A path that begins with two separators, which some platforms take to name a server or a
/// device.
pub open spec fn doubled(path: Seq<char>) -> bool {
    path.len() > 1 && separates(path[0]) && separates(path[1])
}

/// A path from the root: it begins with one slash.
pub open spec fn rooted(path: Seq<char>) -> bool {
    path.len() > 0 && path[0] == '/' && !doubled(path)
}

/// `path` is `name` in the directory `base`: the two texts with a separator between them.
/// There is none where the directory is empty or ends with a slash, and there may be none
/// where it ends with another separator or a drive.
pub open spec fn file_in(base: Seq<char>, name: Seq<char>, path: Seq<char>) -> bool {
    ||| path == base + name && (base.len() == 0 || separates(base.last()) || base.last() == ':')
    ||| base.len() > 0 && base.last() != '/' && exists|separator: char|
        separates(separator) && path == #[trigger] base.push(separator) + name
}

/// What `Path::join` makes of two texts, as far as it is the same on every platform: a
/// relative path goes on from the base; the name of a file in a base without a text has
/// none either; a path from the root replaces a base that is one.
pub open spec fn joins(
    base: Option<Seq<char>>,
    name: Option<Seq<char>>,
    path: Option<Seq<char>>,
) -> bool {
    match (base, name) {
        (Some(base), Some(name)) => {
            &&& !doubled(base) && relative(name) ==> (path matches Some(text) && file_in(
                base,
                name,
                text,
            ))
            &&& rooted(base) && rooted(name) ==> path == Some(name)
        },
        (None, Some(name)) => single(name) ==> path is None,
        _ => true,
    }
}

/// Once a path from the root is the base of a file, setting it again changes nothing.
pub proof fn law_setting_a_base_again_changes_nothing(
    base: Seq<char>,
    name: Seq<char>,
    once: Option<Seq<char>>,
    twice: Option<Seq<char>>,
)
    requires
        rooted(base),
        relative(name),
        joins(Some(base), Some(name), once),
        joins(Some(base), once, twice),
    ensures
        twice == once,
{
    let text = once->0;
    assert(text[0] == base[0]);
    if base.len() > 1 {
        assert(text[1] == base[1]);
    } else {
        assert(base.last() == '/');
        assert(text[1] == name[0]);
    }
    assert(rooted(text));
}

/// `PathBuf::from`: a path with the given text.
#[verifier::external_body]
fn path_from(text: String) -> (path: PathBuf)
    ensures
        path_text(path) == Some(text@),
{
    PathBuf::from(text)
}

/// `Path::join`: a path adjoined to another. Which separator stands between them is not
/// said, nor what becomes of paths that name drives, servers or devices, or that begin
/// with a backslash: that depends on the platform.
#[verifier::external_body]
fn join(base: &Path, path: &PathBuf) -> (r: PathBuf)
    ensures
        joins(borrowed_path_text(base), path_text(*path), path_text(r)),
{
    base.join(path)
}

/// `Path::to_str`: the text of a path, where it is valid Unicode.
#[verifier::external_body]
fn to_str(path: &PathBuf) -> (r: Option<&str>)
    ensures
        match r {
            Some(text) => path_text(*path) == Some(text@),
            None => path_text(*path) is None,
        },
{
    path.to_str()
}

/// `PathBuf::clone`: the same path again.
pub assume_specification[ <PathBuf as Clone>::clone ](path: &PathBuf) -> (r: PathBuf)
    ensures
        r == *path,
;

/// The text of a path; nothing where it has none.
fn text_or_nothing(path: &PathBuf) -> (r: &str)
    ensures
        r@ == text_of_path(*path),
{
    match to_str(path) {
        Some(text) => text,
        None => {
            proof {
                reveal_strlit("");
                assert(""@ =~= seq![]);
            }
            ""
        },
    }
}

/// The text of a path; nothing where it has none.
pub open spec fn text_of_path(path: PathBuf) -> Seq<char> {
    match path_text(path) {
        Some(text) => text,
        None => seq![],
    }
}

/// The files of a model.
#[derive(Debug)]
pub struct ModelFiles {
    pub config: PathBuf,
    pub model: PathBuf,
    pub tokenizer: PathBuf,
}

/// What the names of a step's files have before their endings.
pub open spec fn name_suffix(step: Option<Seq<char>>) -> Seq<char> {
    match step {
        Some(tag) => "_"@ + tag,
        None => seq![],
    }
}

/// The name of the file with the configuration.
pub open spec fn config_name(step: Option<Seq<char>>) -> Seq<char> {
    "meta"@ + name_suffix(step) + ".json"@
}

/// The name of the file with the weights.
pub open spec fn model_name(step: Option<Seq<char>>) -> Seq<char> {
    "model"@ + name_suffix(step) + ".pt"@
}

/// The name of the file with the tokenizer.
pub open spec fn tokenizer_name() -> Seq<char> {
    "tokenizer.pkl"@
}

/// So many zeros.
pub open spec fn zeros(n: int) -> Seq<char> {
    Seq::new(
        (if n > 0 {
            n
        } else {
            0
        }) as nat,
        |i: int| '0',
    )
}

/// A number in at least six decimal digits.
pub open spec fn six_digits(n: nat) -> Seq<char> {
    zeros(6 - decimal(n).len()) + decimal(n)
}

/// A number in at least six decimal digits.
fn six_digit_text(n: u64) -> (text: String)
    ensures
        text@ == six_digits(n as nat),
{
    let number = decimal_text(n);
    let len = characters(number.as_str()).len();
    let mut text = String::new();
    let mut k: usize = len;
    assert(text@ =~= zeros(0));
    while k < 6
        invariant
            len <= k,
            k <= 6 || k == len,
            text@ == zeros(k - len),
        decreases 6 - k,
    {
        text.push('0');
        k = k + 1;
        assert(text@ =~= zeros(k - len));
    }
    assert(text@ =~= zeros(6 - len));
    text.append(number.as_str());
    text
}

/// The value of a digit.
pub open spec fn digit_value(c: char) -> Option<nat> {
    if '0' <= c && c <= '9' {
        Some((c as u32 - '0' as u32) as nat)
    } else {
        None
    }
}

/// The number that some decimal digits write; of no digits, zero.
pub open spec fn number_of(text: Seq<char>) -> Option<nat>
    decreases text.len(),
{
    if text.len() == 0 {
        Some(0)
    } else {
        match (number_of(text.drop_last()), digit_value(text.last())) {
            (Some(n), Some(d)) => Some(10 * n + d),
            _ => None,
        }
    }
}

/// The number that a text writes, with or without a plus sign, if it fits.
pub open spec fn parsed(text: Seq<char>) -> Option<u64> {
    let digits = if text.len() > 0 && text[0] == '+' {
        text.skip(1)
    } else {
        text
    };
    match number_of(digits) {
        Some(n) => if digits.len() > 0 && n <= u64::MAX {
            Some(n as u64)
        } else {
            None
        },
        None => None,
    }
}

/// The step in a file name of the form `model_<step>.pt`.
pub open spec fn step_of(name: Seq<char>) -> Option<u64> {
    let n = name.len() as int;
    if "model_"@.is_prefix_of(name) && ".pt"@.is_suffix_of(name) {
        parsed(name.subrange(6, n - 3))
    } else {
        None
    }
}

proof fn lemma_number_bound(text: Seq<char>, n: int)
    requires
        0 <= n <= text.len(),
    ensures
        number_of(text) is Some ==> number_of(text.take(n)) is Some && number_of(text.take(n))->0
            <= number_of(text)->0,
    decreases text.len() - n,
{
    if n < text.len() {
        lemma_number_bound(text, n + 1);
        assert(text.take(n + 1).drop_last() =~= text.take(n));
    } else {
        assert(text.take(n) =~= text);
    }
}

/// Reads the number that `text[from..to]` writes.
fn parse_number(text: &Vec<char>, from: usize, to: usize) -> (r: Option<u64>)
    requires
        from <= to <= text@.len(),
    ensures
        r == parsed(text@.subrange(from as int, to as int)),
{
    let ghost whole = text@.subrange(from as int, to as int);
    let start = if from < to && text[from] == '+' {
        from + 1
    } else {
        from
    };
    let ghost digits = text@.subrange(start as int, to as int);
    proof {
        assert(digits =~= if whole.len() > 0 && whole[0] == '+' {
            whole.skip(1)
        } else {
            whole
        });
    }
    if start == to {
        return None;
    }
    let mut n: u64 = 0;
    assert(digits.take(0) =~= seq![]);
    for k in start..to
        invariant
            from <= start <= to <= text@.len(),
            start <= k <= to,
            digits == text@.subrange(start as int, to as int),
            whole == text@.subrange(from as int, to as int),
            parsed(whole) == (match number_of(digits) {
                Some(v) => if digits.len() > 0 && v <= u64::MAX {
                    Some(v as u64)
                } else {
                    None
                },
                None => None,
            }),
            number_of(digits.take(k - start)) == Some(n as nat),
    {
        let c = text[k];
        proof {
            let longer = digits.take(k - start + 1);
            assert(longer.drop_last() =~= digits.take(k - start));
            assert(longer.last() == c);
            lemma_number_bound(digits, k - start + 1);
        }
        if !('0' <= c && c <= '9') {
            return None;
        }
        let d: u64 = (c as u32 - '0' as u32) as u64;
        match n.checked_mul(10) {
            Some(m) => match m.checked_add(d) {
                Some(sum) => {
                    n = sum;
                },
                None => {
                    return None;
                },
            },
            None => {
                return None;
            },
        }
    }
    assert(digits.take(to - start) =~= digits);
    Some(n)
}

/// The step in a file name of the form `model_<step>.pt`.
pub fn extract_step_from_filename(file_name: &str) -> (r: Option<u64>)
    ensures
        r == step_of(file_name@),
{
    proof {
        reveal_strlit("model_");
        reveal_strlit(".pt");
    }
    let name = characters(file_name);
    let prefix = characters("model_");
    let suffix = characters(".pt");
    let n = name.len();
    if !stands_at(&name, 0, &prefix) {
        assert(name@.skip(0) =~= name@);
        return None;
    }
    assert(name@.skip(0) =~= name@);
    assert(name@.take(6) =~= prefix@);
    if n < 3 || !stands_at(&name, n - 3, &suffix) {
        proof {
            if ".pt"@.is_suffix_of(name@) {
                assert(name@.skip(n - 3).take(3) =~= ".pt"@);
            }
        }
        return None;
    }
    proof {
        assert(".pt"@ =~= name@.subrange(n - 3, n as int)) by {
            assert(name@.skip(n - 3).take(3) =~= name@.subrange(n - 3, n as int));
        }
        if n < 9 {
            let dot = n - 3;
            assert(name@.subrange(n - 3, n as int)[0] == '.');
            assert(name@[dot] == name@.take(6)[dot]);
            assert(false);
        }
    }
    parse_number(&name, 6, n - 3)
}

/// Whether `step` is the highest of the steps in some file names.
pub open spec fn is_last_step(names: Seq<String>, step: Option<u64>) -> bool {
    match step {
        Some(step) => {
            &&& exists|i: int|
                0 <= i < names.len() && step_of((#[trigger] names[i])@) == Some(step)
            &&& forall|i: int|
                0 <= i < names.len() ==> (step_of((#[trigger] names[i])@) matches Some(s) ==> s
                    <= step)
        },
        None => forall|i: int| 0 <= i < names.len() ==> step_of((#[trigger] names[i])@) is None,
    }
}

/// The highest step among files named like `model_<step>.pt`.
pub fn find_last_step(names: &Vec<String>) -> (r: Option<u64>)
    ensures
        is_last_step(names@, r),
{
    let mut last: Option<u64> = None;
    for i in 0..names.len()
        invariant
            is_last_step(names@.take(i as int), last),
    {
        let ghost seen = names@.take(i as int);
        let ghost now = names@.take(i + 1);
        let step = extract_step_from_filename(names[i].as_str());
        let ghost before = last;
        if let Some(s) = step {
            last = match last {
                Some(best) => if s > best {
                    Some(s)
                } else {
                    Some(best)
                },
                None => Some(s),
            };
        }
        proof {
            assert(now[i as int] == names@[i as int]);
            assert forall|k: int| 0 <= k < now.len() implies k == i || now[k] == #[trigger] seen[k] by {}
            if let Some(best) = before {
                let k = choose|k: int|
                    0 <= k < seen.len() && step_of((#[trigger] seen[k])@) == Some(best);
                assert(now[k] == seen[k]);
            }
            assert forall|k: int| 0 <= k < now.len() implies (step_of((#[trigger] now[k])@)
                matches Some(s) ==> last is Some && s <= last->0) by {
                if k < i {
                    assert(now[k] == seen[k]);
                }
            }
        }
    }
    assert(names@.take(names@.len() as int) =~= names@);
    last
}

/// Texts in one.
fn three(a: &str, b: &str, c: &str) -> (text: String)
    ensures
        text@ == a@ + b@ + c@,
{
    let mut text = a.to_owned();
    text.append(b);
    text.append(c);
    text
}

/// The step that the files of a directory are taken from: the highest, in at least six
/// digits.
pub open spec fn step_tag(step: Option<u64>) -> Option<Seq<char>> {
    match step {
        Some(s) => Some(six_digits(s as nat)),
        None => None,
    }
}

/// The texts of the paths of a step's files, or of those without one: of the configuration,
/// the weights and the tokenizer.
pub open spec fn file_texts(step: Option<Seq<char>>) -> (Seq<char>, Seq<char>, Seq<char>) {
    (config_name(step), model_name(step), tokenizer_name())
}

/// Whether `step` is the one that the files of a directory are taken from.
pub open spec fn is_step_of(names: Option<Seq<String>>, step: Option<u64>) -> bool {
    match names {
        Some(names) => is_last_step(names, step),
        None => step is None,
    }
}

impl Clone for ModelFiles {
    fn clone(&self) -> (r: Self)
        ensures
            r == *self,
    {
        ModelFiles {
            config: self.config.clone(),
            model: self.model.clone(),
            tokenizer: self.tokenizer.clone(),
        }
    }
}

impl ModelFiles {
    /// The files of a step, or those without one.
    pub fn new(step: Option<String>) -> (r: Result<Self, ()>)
        ensures
            r is Ok,
            r matches Ok(files) ==> {
                let tag = match step {
                    Some(text) => Some(text@),
                    None => None,
                };
                &&& path_text(files.config) == Some(config_name(tag))
                &&& path_text(files.model) == Some(model_name(tag))
                &&& path_text(files.tokenizer) == Some(tokenizer_name())
                &&& path_text(files.config) == Some(file_texts(tag).0)
                &&& path_text(files.model) == Some(file_texts(tag).1)
                &&& path_text(files.tokenizer) == Some(file_texts(tag).2)
            },
    {
        let suffix = match step {
            Some(tag) => {
                let mut text = "_".to_owned();
                text.append(tag.as_str());
                text
            },
            None => String::new(),
        };
        Ok(
            ModelFiles {
                config: path_from(three("meta", suffix.as_str(), ".json")),
                model: path_from(three("model", suffix.as_str(), ".pt")),
                tokenizer: path_from("tokenizer.pkl".to_owned()),
            },
        )
    }

    /// The files of a directory with these file names: those of the highest step, or
    /// those without one where there is no step or the names are not known.
    pub fn new_from_dir(dir: &Path, names: Option<&Vec<String>>) -> (r: Result<Self, ()>)
        ensures
            r is Ok,
            r matches Ok(files) ==> exists|step: Option<u64>|
                {
                    let base = borrowed_path_text(dir);
                    &&& match names {
                        Some(names) => is_last_step(names@, step),
                        None => step is None,
                    }
                    &&& is_step_of(
                        match names {
                            Some(names) => Some(names@),
                            None => None,
                        },
                        step,
                    )
                    &&& joins(
                        base,
                        Some(config_name(#[trigger] step_tag(step))),
                        path_text(files.config),
                    )
                    &&& joins(base, Some(model_name(step_tag(step))), path_text(files.model))
                    &&& joins(base, Some(tokenizer_name()), path_text(files.tokenizer))
                },
    {
        let step = match names {
            Some(names) => find_last_step(names),
            None => None,
        };
        let tag = match step {
            Some(s) => Some(six_digit_text(s)),
            None => None,
        };
        let mut files = Self::new(tag)?;
        files.set_model_base(dir);
        files.set_tokenizer_base(dir);
        proof {
            assert(joins(
                borrowed_path_text(dir),
                Some(config_name(step_tag(step))),
                path_text(files.config),
            ));
        }
        Ok(files)
    }

    /// These are the files of `old`, with the configuration and the weights put into a
    /// directory.
    pub open spec fn has_model_base(self, old: Self, base: Option<Seq<char>>) -> bool {
        &&& joins(base, path_text(old.config), path_text(self.config))
        &&& joins(base, path_text(old.model), path_text(self.model))
        &&& self.tokenizer == old.tokenizer
    }

    /// These are the files of `old`, with the tokenizer put into a directory.
    pub open spec fn has_tokenizer_base(self, old: Self, base: Option<Seq<char>>) -> bool {
        &&& joins(base, path_text(old.tokenizer), path_text(self.tokenizer))
        &&& self.config == old.config
        &&& self.model == old.model
    }

    /// Puts the configuration and the weights into a directory.
    pub fn set_model_base(&mut self, base_dir: &Path)
        ensures
            final(self).has_model_base(*old(self), borrowed_path_text(base_dir)),
    {
        self.config = join(base_dir, &self.config);
        self.model = join(base_dir, &self.model);
    }

    /// Puts the tokenizer into a directory.
    pub fn set_tokenizer_base(&mut self, base_dir: &Path)
        ensures
            final(self).has_tokenizer_base(*old(self), borrowed_path_text(base_dir)),
    {
        self.tokenizer = join(base_dir, &self.tokenizer);
    }

    /// The path of the configuration, as far as it is a text.
    pub fn config_path(&self) -> (r: &str)
        ensures
            r@ == text_of_path(self.config),
    {
        text_or_nothing(&self.config)
    }

    /// The path of the weights, as far as it is a text.
    pub fn model_path(&self) -> (r: &str)
        ensures
            r@ == text_of_path(self.model),
    {
        text_or_nothing(&self.model)
    }

    /// The path of the tokenizer, as far as it is a text.
    pub fn tokenizer_path(&self) -> (r: &str)
        ensures
            r@ == text_of_path(self.tokenizer),
    {
        text_or_nothing(&self.tokenizer)
    }
}

/// The two bases may be set in either order: what one order can lead to, the other can.
pub proof fn law_bases_may_be_exchanged(
    files: ModelFiles,
    model_base: Option<Seq<char>>,
    tokenizer_base: Option<Seq<char>>,
    end: ModelFiles,
)
    ensures
        (exists|mid: ModelFiles| #[trigger]
            mid.has_model_base(files, model_base) && end.has_tokenizer_base(mid, tokenizer_base))
            <==> (exists|mid: ModelFiles| #[trigger]
            mid.has_tokenizer_base(files, tokenizer_base) && end.has_model_base(mid, model_base)),
{
    let model_first = ModelFiles { tokenizer: files.tokenizer, ..end };
    let tokenizer_first = ModelFiles { tokenizer: end.tokenizer, ..files };
    if exists|mid: ModelFiles| #[trigger]
        mid.has_model_base(files, model_base) && end.has_tokenizer_base(mid, tokenizer_base) {
        assert(tokenizer_first.has_tokenizer_base(files, tokenizer_base));
    }
    if exists|mid: ModelFiles| #[trigger]
        mid.has_tokenizer_base(files, tokenizer_base) && end.has_model_base(mid, model_base) {
        assert(model_first.has_model_base(files, model_base));
    }
}

proof fn lemma_digit(n: nat)
    requires
        n < 10,
    ensures
        digit_value(digit(n)) == Some(n),
        digit(n) != '+',
{
}

proof fn lemma_number_of_decimal(n: nat)
    ensures
        number_of(decimal(n)) == Some(n),
        decimal(n).len() > 0,
        decimal(n)[0] != '+',
    decreases n,
{
    lemma_digit(n % 10);
    if n < 10 {
        assert(decimal(n).drop_last() =~= seq![]);
        assert(number_of(seq![]) == Some(0nat));
        assert(decimal(n).last() == digit(n));
        lemma_digit(n);
    } else {
        lemma_number_of_decimal(n / 10);
        assert(decimal(n).drop_last() =~= decimal(n / 10));
    }
}

/// Zeros in front do not change a number.
proof fn lemma_leading_zeros(k: int, text: Seq<char>)
    requires
        0 <= k,
        number_of(text) is Some,
    ensures
        number_of(zeros(k) + text) == number_of(text),
    decreases text.len(), k,
{
    if text.len() > 0 {
        lemma_leading_zeros(k, text.drop_last());
        assert((zeros(k) + text).drop_last() =~= zeros(k) + text.drop_last());
    } else if k > 0 {
        lemma_leading_zeros(k - 1, text);
        assert((zeros(k) + text).drop_last() =~= zeros(k - 1) + text);
        assert((zeros(k) + text).last() == '0');
    } else {
        assert(zeros(0) + text =~= text);
    }
}

proof fn lemma_decimal_digits(n: nat, i: int)
    requires
        0 <= i < decimal(n).len(),
    ensures
        digit_value(decimal(n)[i]) is Some,
    decreases n,
{
    lemma_digit(n % 10);
    if n >= 10 && i < decimal(n).len() - 1 {
        lemma_decimal_digits(n / 10, i);
    } else if n < 10 {
        lemma_digit(n);
    }
}

/// The names of a step's files are names of files, so that they go on from any directory.
pub proof fn law_names_are_single(step: Option<u64>)
    ensures
        single(config_name(step_tag(step))),
        single(model_name(step_tag(step))),
        single(tokenizer_name()),
{
    reveal_strlit("meta");
    reveal_strlit("model");
    reveal_strlit("_");
    reveal_strlit(".json");
    reveal_strlit(".pt");
    reveal_strlit("tokenizer.pkl");
    let suffix = name_suffix(step_tag(step));
    assert forall|i: int| 0 <= i < suffix.len() implies suffix[i] != '/' && suffix[i] != '\\'
        && suffix[i] != ':' by {
        if let Some(s) = step {
            let digits = six_digits(s as nat);
            if i > 0 {
                assert(suffix[i] == digits[i - 1]);
                let k = zeros(6 - decimal(s as nat).len()).len();
                if i - 1 < k {
                    assert(digits[i - 1] == '0');
                } else {
                    lemma_decimal_digits(s as nat, i - 1 - k);
                }
            }
        }
    }
    let config = config_name(step_tag(step));
    assert forall|i: int| 0 <= i < config.len() implies config[i] != '/' && config[i] != '\\'
        && config[i] != ':' by {
        if 4 <= i < 4 + suffix.len() {
            assert(config[i] == suffix[i - 4]);
        }
    }
    assert(config[0] == 'm' && model_name(step_tag(step))[0] == 'm' && tokenizer_name()[0] == 't');
    let model = model_name(step_tag(step));
    assert forall|i: int| 0 <= i < model.len() implies model[i] != '/' && model[i] != '\\'
        && model[i] != ':' by {
        if 5 <= i < 5 + suffix.len() {
            assert(model[i] == suffix[i - 5]);
        }
    }
}

/// The file name of a step's weights tells the step.
pub proof fn law_model_name_tells_step(step: u64)
    ensures
        step_of(model_name(step_tag(Some(step)))) == Some(step),
{
    let digits = six_digits(step as nat);
    let name = model_name(step_tag(Some(step)));
    reveal_strlit("model");
    reveal_strlit("model_");
    reveal_strlit("_");
    reveal_strlit(".pt");
    lemma_number_of_decimal(step as nat);
    let k = 6 - decimal(step as nat).len();
    if k > 0 {
        lemma_leading_zeros(k, decimal(step as nat));
        assert(digits[0] == '0');
    } else {
        assert(digits =~= decimal(step as nat));
    }
    let n = name.len() as int;
    assert("model"@ + "_"@ =~= "model_"@);
    assert(name =~= "model_"@ + digits + ".pt"@);
    assert(name.take(6) =~= "model_"@);
    assert(name.subrange(n - 3, n) =~= ".pt"@);
    assert(name.subrange(6, n - 3) =~= digits);
}

/// Some decimal digits write the number that they give when they are read one after the
/// other, and nothing else writes one.
pub proof fn law_digits_are_read(text: Seq<char>)
    ensures
        number_of(text) is Some <==> forall|i: int|
            0 <= i < text.len() ==> '0' <= #[trigger] text[i] <= '9',
        number_of(text) matches Some(n) ==> n == text.fold_left(
            0int,
            |value: int, c: char| 10 * value + (c as u32 - '0' as u32),
        ),
    decreases text.len(),
{
    reveal_with_fuel(Seq::fold_left, 1);
    if text.len() > 0 {
        let front = text.drop_last();
        law_digits_are_read(front);
        if number_of(text) is Some {
            assert forall|i: int| 0 <= i < text.len() implies '0' <= #[trigger] text[i] <= '9' by {
                if i < front.len() {
                    assert('0' <= front[i] <= '9');
                }
            }
        }
        if forall|i: int| 0 <= i < text.len() ==> '0' <= #[trigger] text[i] <= '9' {
            assert forall|i: int| 0 <= i < front.len() implies '0' <= #[trigger] front[i] <= '9' by {
                assert(front[i] == text[i]);
            }
            assert('0' <= text[text.len() - 1] <= '9');
        }
    }
}

/// A file is that of a step exactly if its name is `model_`, the step in decimal digits,
/// with or without a plus sign, and `.pt`.
pub proof fn law_names_of_steps(name: Seq<char>, step: u64)
    ensures
        step_of(name) == Some(step) <==> exists|digits: Seq<char>|
            {
                &&& #[trigger] digits.len() > 0
                &&& forall|i: int| 0 <= i < digits.len() ==> '0' <= #[trigger] digits[i] <= '9'
                &&& digits.fold_left(
                    0int,
                    |value: int, c: char| 10 * value + (c as u32 - '0' as u32),
                ) == step
                &&& name == "model_"@ + digits + ".pt"@ || name == "model_"@ + seq!['+'] + digits
                    + ".pt"@
            },
{
    reveal_strlit("model_");
    reveal_strlit(".pt");
    let n = name.len() as int;
    if step_of(name) == Some(step) {
        let inner = name.subrange(6, n - 3);
        let signed = inner.len() > 0 && inner[0] == '+';
        let digits = if signed {
            inner.skip(1)
        } else {
            inner
        };
        if n < 9 {
            lemma_short_name(name);
        }
        law_digits_are_read(digits);
        assert(name =~= "model_"@ + inner + ".pt"@) by {
            assert(name.subrange(0, 6) =~= "model_"@);
            assert(name.subrange(n - 3, n) =~= ".pt"@);
        }
        if signed {
            assert(inner =~= seq!['+'] + digits);
            assert(name =~= "model_"@ + seq!['+'] + digits + ".pt"@);
        }
        assert(digits.len() > 0);
    }
    if exists|digits: Seq<char>|
        {
            &&& #[trigger] digits.len() > 0
            &&& forall|i: int| 0 <= i < digits.len() ==> '0' <= #[trigger] digits[i] <= '9'
            &&& digits.fold_left(
                0int,
                |value: int, c: char| 10 * value + (c as u32 - '0' as u32),
            ) == step
            &&& name == "model_"@ + digits + ".pt"@ || name == "model_"@ + seq!['+'] + digits
                + ".pt"@
        } {
        let digits = choose|digits: Seq<char>|
            {
                &&& #[trigger] digits.len() > 0
                &&& forall|i: int| 0 <= i < digits.len() ==> '0' <= #[trigger] digits[i] <= '9'
                &&& digits.fold_left(
                    0int,
                    |value: int, c: char| 10 * value + (c as u32 - '0' as u32),
                ) == step
                &&& name == "model_"@ + digits + ".pt"@ || name == "model_"@ + seq!['+'] + digits
                    + ".pt"@
            };
        law_digits_are_read(digits);
        let inner = if name == "model_"@ + digits + ".pt"@ {
            digits
        } else {
            seq!['+'] + digits
        };
        assert(name =~= "model_"@ + inner + ".pt"@);
        assert(name.subrange(0, 6) =~= "model_"@);
        assert(name.subrange(n - 3, n) =~= ".pt"@);
        assert(name.subrange(6, n - 3) =~= inner);
        assert('0' <= digits[0] <= '9');
        assert((seq!['+'] + digits).skip(1) =~= digits);
    }
}

/// No name is so short that its beginning and its ending overlap.
proof fn lemma_short_name(name: Seq<char>)
    requires
        "model_"@.is_prefix_of(name),
        ".pt"@.is_suffix_of(name),
    ensures
        name.len() >= 9,
{
    reveal_strlit("model_");
    reveal_strlit(".pt");
    let n = name.len() as int;
    if n < 9 {
        let dot = n - 3;
        assert(name.subrange(n - 3, n)[0] == '.');
        assert(name[dot] == name.subrange(0, 6)[dot]);
    }
}

/// A step's tag has at least six digits, which give the step, and zeros in front only to
/// have six; the names of its files are made with it.
pub proof fn law_names_carry_the_step(step: u64)
    ensures
        ({
            let tag = step_tag(Some(step))->0;
            &&& step_tag(Some(step)) is Some
            &&& tag.len() >= 6
            &&& tag.len() > 6 ==> tag[0] != '0'
            &&& forall|i: int| 0 <= i < tag.len() ==> '0' <= #[trigger] tag[i] <= '9'
            &&& tag.fold_left(0int, |value: int, c: char| 10 * value + (c as u32 - '0' as u32))
                == step
            &&& config_name(Some(tag)) == "meta_"@ + tag + ".json"@
            &&& model_name(Some(tag)) == "model_"@ + tag + ".pt"@
        }),
        step_tag(None) is None,
        config_name(None) == "meta.json"@,
        model_name(None) == "model.pt"@,
        tokenizer_name() == "tokenizer.pkl"@,
{
    let number = decimal(step as nat);
    let tag = six_digits(step as nat);
    let k = 6 - number.len();
    law_decimal_digits(step as nat);
    lemma_number_of_decimal(step as nat);
    if k > 0 {
        lemma_leading_zeros(k, number);
    } else {
        assert(tag =~= number);
    }
    law_digits_are_read(tag);
    reveal_strlit("meta");
    reveal_strlit("meta_");
    reveal_strlit("model");
    reveal_strlit("model_");
    reveal_strlit("_");
    reveal_strlit(".json");
    reveal_strlit(".pt");
    reveal_strlit("meta.json");
    reveal_strlit("model.pt");
    assert(config_name(Some(tag)) =~= "meta_"@ + tag + ".json"@);
    assert(model_name(Some(tag)) =~= "model_"@ + tag + ".pt"@);
    assert(config_name(None) =~= "meta.json"@);
    assert(model_name(None) =~= "model.pt"@);
}

/// The last step is the highest of those in the file names; there is none exactly if no
/// file is that of a step.
pub proof fn law_last_step_is_the_highest(names: Seq<String>, last: Option<u64>, i: int, s: u64)
    requires
        is_last_step(names, last),
        0 <= i < names.len(),
        step_of(names[i]@) == Some(s),
    ensures
        last is Some,
        s <= last->0,
        exists|j: int| 0 <= j < names.len() && step_of((#[trigger] names[j])@) == last,
{
}

/// A file in a directory has the directory's text, then its own name, and between them a
/// separator, which is missing only where the directory is empty or ends with one, or with
/// a drive.
pub proof fn law_files_in_directories(base: Seq<char>, name: Seq<char>, path: Option<Seq<char>>)
    requires
        joins(Some(base), Some(name), path),
        !(base.len() > 1 && (base[0] == '/' || base[0] == '\\') && (base[1] == '/' || base[1]
            == '\\')),
        name.len() > 0,
        name[0] != '/' && name[0] != '\\',
        !name.contains(':'),
    ensures
        path is Some,
        base.len() == 0 || base[base.len() - 1] == '/' ==> path->0 == base + name,
        base.len() > 0 && base[base.len() - 1] != '/' && base[base.len() - 1] != '\\'
            && base[base.len() - 1] != ':' ==> path->0 == base + seq!['/'] + name || path->0
            == base + seq!['\\'] + name,
        path->0 == base + name || path->0 == base + seq!['/'] + name || path->0 == base + seq![
            '\\',
        ] + name,
{
    let text = path->0;
    if text != base + name {
        let separator = choose|separator: char|
            separates(separator) && text == #[trigger] base.push(separator) + name;
        assert(base.push(separator) =~= base + seq![separator]);
    } else if base.len() > 0 && base.last() != '/' && exists|separator: char|
        separates(separator) && text == #[trigger] base.push(separator) + name {
        let separator = choose|separator: char|
            separates(separator) && text == #[trigger] base.push(separator) + name;
        assert((base.push(separator) + name).len() != (base + name).len());
    }
}

/// Setting the model's base moves the configuration and the weights, and setting the
/// tokenizer's the tokenizer, each on from where it was, and nothing else.
pub proof fn law_bases_move_their_files(
    old: ModelFiles,
    new: ModelFiles,
    base: Option<Seq<char>>,
)
    ensures
        new.has_model_base(old, base) <==> joins(base, path_text(old.config), path_text(new.config))
            && joins(base, path_text(old.model), path_text(new.model)) && new.tokenizer
            == old.tokenizer,
        new.has_tokenizer_base(old, base) <==> joins(
            base,
            path_text(old.tokenizer),
            path_text(new.tokenizer),
        ) && new.config == old.config && new.model == old.model,
{
}

/// The files of a step have it in their names, those without one do not, and the tokenizer's
/// is the same for all.
pub proof fn law_files_of_a_step(tag: Seq<char>)
    ensures
        file_texts(Some(tag)).0 == "meta_"@ + tag + ".json"@,
        file_texts(Some(tag)).1 == "model_"@ + tag + ".pt"@,
        file_texts(Some(tag)).2 == "tokenizer.pkl"@,
        file_texts(None).0 == "meta.json"@,
        file_texts(None).1 == "model.pt"@,
        file_texts(None).2 == "tokenizer.pkl"@,
{
    reveal_strlit("meta");
    reveal_strlit("meta_");
    reveal_strlit("model");
    reveal_strlit("model_");
    reveal_strlit("_");
    reveal_strlit(".json");
    reveal_strlit(".pt");
    reveal_strlit("meta.json");
    reveal_strlit("model.pt");
    assert(config_name(Some(tag)) =~= "meta_"@ + tag + ".json"@);
    assert(model_name(Some(tag)) =~= "model_"@ + tag + ".pt"@);
    assert(config_name(None) =~= "meta.json"@);
    assert(model_name(None) =~= "model.pt"@);
}

/// The files of a directory are those of the highest step that one of its file names tells,
/// and those without a step exactly if no name tells one or the names are not known.
pub proof fn law_step_of_a_directory(names: Seq<String>, step: Option<u64>, i: int, s: u64)
    requires
        is_step_of(Some(names), step),
    ensures
        0 <= i < names.len() && step_of(names[i]@) == Some(s) ==> step is Some && s <= step->0,
        step is Some ==> exists|j: int|
            0 <= j < names.len() && step_of((#[trigger] names[j])@) == step,
        is_step_of(None, None),
        !is_step_of(None, Some(s)),
{
}

} // verus!
