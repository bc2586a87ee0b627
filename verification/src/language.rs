//! The languages the tokenizer knows about, with their punctuation set
//! and default token separator.

use vstd::prelude::*;

verus! {

use vstd::string::StringExecFns;
use crate::strings_util::lowercase_str;

/// Enumerates all languages supported.
#[derive(Copy, Clone, Debug, PartialEq, Eq, Structural)]
pub enum Language {
    DE,
    EN,
    ES,
    FR,
    IT,
    JA,
    KO,
}

impl Language {
    /// Every supported language, in declaration order.
    pub fn all() -> (v: Vec<Language>)
        ensures
            v@ == seq![
                Language::DE,
                Language::EN,
                Language::ES,
                Language::FR,
                Language::IT,
                Language::JA,
                Language::KO,
            ],
    {
        let mut v: Vec<Language> = Vec::new();
        v.push(Language::DE);
        v.push(Language::EN);
        v.push(Language::ES);
        v.push(Language::FR);
        v.push(Language::IT);
        v.push(Language::JA);
        v.push(Language::KO);
        proof {
            assert(v@ =~= seq![
                Language::DE,
                Language::EN,
                Language::ES,
                Language::FR,
                Language::IT,
                Language::JA,
                Language::KO,
            ]);
        }
        v
    }

    /// The punctuation characters, the same for every language.
    pub fn punctuation(&self) -> (r: &'static str)
        ensures
            r@ == "!\"#$%&'()*+,-./:;<=>?@[\\]^_`{|}~"@,
    {
        "!\"#$%&'()*+,-./:;<=>?@[\\]^_`{|}~"
    }

    /// The default token separator, the same for every language.
    pub fn default_separator(&self) -> (r: &'static str)
        ensures
            r@ == " "@,
    {
        " "
    }

    /// The two-letter code of the language.
    pub fn code(&self) -> (r: &'static str)
        ensures
            *self is DE ==> r@ == "de"@,
            *self is EN ==> r@ == "en"@,
            *self is ES ==> r@ == "es"@,
            *self is FR ==> r@ == "fr"@,
            *self is IT ==> r@ == "it"@,
            *self is JA ==> r@ == "ja"@,
            *self is KO ==> r@ == "ko"@,
    {
        match self {
            Language::DE => "de",
            Language::EN => "en",
            Language::ES => "es",
            Language::FR => "fr",
            Language::IT => "it",
            Language::JA => "ja",
            Language::KO => "ko",
        }
    }
}

impl core::str::FromStr for Language {
    type Err = String;

    fn from_str(it: &str) -> Result<Language, String> {
        let lower = lowercase_str(it);
        if lower == <String as StringExecFns>::from_str("de") {
            Ok(Language::DE)
        } else if lower == <String as StringExecFns>::from_str("en") {
            Ok(Language::EN)
        } else if lower == <String as StringExecFns>::from_str("es") {
            Ok(Language::ES)
        } else if lower == <String as StringExecFns>::from_str("fr") {
            Ok(Language::FR)
        } else if lower == <String as StringExecFns>::from_str("it") {
            Ok(Language::IT)
        } else if lower == <String as StringExecFns>::from_str("ja") {
            Ok(Language::JA)
        } else if lower == <String as StringExecFns>::from_str("ko") {
            Ok(Language::KO)
        } else {
            Err(<String as StringExecFns>::from_str("unknown language: ").concat(it))
        }
    }
}

} // verus!
