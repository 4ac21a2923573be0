//! The card of a script: what a caller must know of it.

use crate::text;
use vstd::prelude::*;

verus! {

/// The card of a script.
#[derive(Debug, PartialEq)]
pub struct ScriptCard {
    pub name: String,
    pub path: String,
    pub lang: String,
    pub desc: String,
    /// The parameters as declared: `name(type, required|default=X)` between commas.
    pub params: String,
    /// The output as declared: `field(type)` between commas.
    pub output: String,
    pub pure: bool,
    pub idempotent: bool,
    pub concurrency: Concurrency,
    /// The effects as declared: none, fs, net, process or system between commas.
    pub effects: String,
    pub timeout_secs: u64,
    pub retries: usize,
    /// The coordinates `F(f)-O(o)-P(p)-T(t)`, each from one to four, or nothing.
    pub mcsm: String,
    /// What each coordinate stands for here, a line each, or nothing.
    pub mcsm_note: String,
}

/// The card of a script, as values.
pub struct GCard {
    pub name: Seq<char>,
    pub path: Seq<char>,
    pub lang: Seq<char>,
    pub desc: Seq<char>,
    pub params: Seq<char>,
    pub output: Seq<char>,
    pub pure: bool,
    pub idempotent: bool,
    pub concurrency: Concurrency,
    pub effects: Seq<char>,
    pub timeout_secs: int,
    pub retries: int,
    pub mcsm: Seq<char>,
    pub mcsm_note: Seq<char>,
}

/// What may run beside a script.
#[derive(Debug, Clone, Copy, PartialEq, Eq, Structural)]
pub enum Concurrency {
    /// Anything.
    Safe,
    /// Anything but the script itself.
    Exclusive,
    /// Nothing.
    Serial,
}

impl ScriptCard {
    pub open spec fn view(&self) -> GCard {
        GCard {
            name: self.name@,
            path: self.path@,
            lang: self.lang@,
            desc: self.desc@,
            params: self.params@,
            output: self.output@,
            pure: self.pure,
            idempotent: self.idempotent,
            concurrency: self.concurrency,
            effects: self.effects@,
            timeout_secs: self.timeout_secs as int,
            retries: self.retries as int,
            mcsm: self.mcsm@,
            mcsm_note: self.mcsm_note@,
        }
    }
}

/// The word for a degree of concurrency.
pub open spec fn concurrency_word(c: Concurrency) -> Seq<char> {
    match c {
        Concurrency::Safe => "safe"@,
        Concurrency::Exclusive => "exclusive"@,
        Concurrency::Serial => "serial"@,
    }
}

/// The degree of concurrency that a word stands for, or what is wrong with it.
pub open spec fn concurrency_of(s: Seq<char>) -> Result<Concurrency, Seq<char>> {
    let t = text::trimmed(s);
    if t == "safe"@ {
        Ok(Concurrency::Safe)
    } else if t == "exclusive"@ {
        Ok(Concurrency::Exclusive)
    } else if t == "serial"@ {
        Ok(Concurrency::Serial)
    } else {
        Err("unknown concurrency '"@ + t + "' (known: safe/exclusive/serial)"@)
    }
}

impl Concurrency {
    /// The degree of concurrency that a word stands for, or what is wrong with it.
    pub fn parse(s: &str) -> (r: Result<Concurrency, String>)
        ensures
            match r {
                Ok(c) => concurrency_of(s@) == Ok::<Concurrency, Seq<char>>(c),
                Err(e) => concurrency_of(s@) == Err::<Concurrency, Seq<char>>(e@),
            },
    {
        let t = text::trim(s);
        if text::same(t.as_str(), "safe") {
            Ok(Concurrency::Safe)
        } else if text::same(t.as_str(), "exclusive") {
            Ok(Concurrency::Exclusive)
        } else if text::same(t.as_str(), "serial") {
            Ok(Concurrency::Serial)
        } else {
            let mut m = "unknown concurrency '".to_owned();
            m.append(t.as_str());
            m.append("' (known: safe/exclusive/serial)");
            Err(m)
        }
    }

    /// The word for a degree of concurrency.
    pub fn as_str(&self) -> (r: &'static str)
        ensures
            r@ == concurrency_word(*self),
    {
        match self {
            Concurrency::Safe => "safe",
            Concurrency::Exclusive => "exclusive",
            Concurrency::Serial => "serial",
        }
    }
}

/// The word for a degree of concurrency stands for that degree.
pub proof fn law_concurrency_reads_back(c: Concurrency)
    ensures
        concurrency_of(concurrency_word(c)) == Ok::<Concurrency, Seq<char>>(c),
{
    reveal_strlit("safe");
    reveal_strlit("exclusive");
    reveal_strlit("serial");
    assert("safe"@.len() == 4 && "exclusive"@.len() == 9 && "serial"@.len() == 6);
    text::lemma_trim_start(concurrency_word(c));
    text::lemma_trim_end(concurrency_word(c));
    let w = concurrency_word(c);
    assert(!text::is_space(w[0]) && !text::is_space(w.last()));
    assert(text::trim_start_spec(w) == w);
    assert(text::trim_end_spec(w) == w);
}

} // verus!
