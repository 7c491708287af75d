//! Why a document was not compressed, or its output not accepted. One
//! enum, so a program can react to a specific outcome (skip files that
//! need a password, treat a verification regression as a bug) without
//! comparing message text; [`Refusal::to_text`] gives the message the command
//! prints.
use vstd::prelude::*;
use vstd::string::StringExecFns;

use crate::text;
use crate::verify::render::Comparison;
use crate::verify::Category;

verus! {

/// Why nothing was produced.
#[derive(Debug)]
pub enum Refusal {
    /// The input does not parse as a PDF.
    Unparseable(String),
    /// A password is needed to open the input.
    PasswordRequired,
    /// The input is encrypted with crypt filters the parser could not
    /// read, so it was not decrypted and would be written as garbage.
    UndecryptedCryptFilters,
    /// The page tree refers to objects the parser could not load.
    DamagedPageTree,
    /// Page content or resources refer to objects the parser could not load.
    DamagedResources,
    /// The output verifies worse than the input: per category, the
    /// input's problem count and the output's.
    VerificationRegressed(Vec<(Category, usize, usize)>),
    /// Pages fell below the similarity floor under strict verification.
    BelowSimilarityFloor(Comparison),
    /// A stage or the writer failed.
    Internal(String),
}

/// The name of a category.
pub open spec fn category_text(c: Category) -> Seq<char> {
    match c {
        Category::Parse => "Parse"@,
        Category::PageCount => "PageCount"@,
        Category::ContentStream => "ContentStream"@,
        Category::Stream => "Stream"@,
        Category::Image => "Image"@,
    }
}

fn category_name(c: Category) -> (r: &'static str)
    ensures
        r@ == category_text(c),
{
    match c {
        Category::Parse => "Parse",
        Category::PageCount => "PageCount",
        Category::ContentStream => "ContentStream",
        Category::Stream => "Stream",
        Category::Image => "Image",
    }
}

/// The first `n` regressions, separated by commas.
pub open spec fn regression_items(list: Seq<(Category, usize, usize)>, n: int) -> Seq<char>
    decreases n,
{
    if n <= 0 || n > list.len() {
        Seq::empty()
    } else {
        let front = regression_items(list, n - 1);
        let (c, here, there) = list[n - 1];
        (if n == 1 {
            front
        } else {
            front + ", "@
        }) + "("@ + category_text(c) + ", "@ + text::number(here as nat) + ", "@ + text::number(
            there as nat,
        ) + ")"@
    }
}

/// The message the command prints.
pub open spec fn message(r: Refusal) -> Seq<char> {
    match r {
        Refusal::Unparseable(e) => "parsing the input: "@ + e@,
        Refusal::PasswordRequired =>
            "input is encrypted with a password that is needed to open it"@,
        Refusal::UndecryptedCryptFilters =>
            "input is encrypted with crypt filters the parser could not read, so it was not decrypted"@,
        Refusal::DamagedPageTree => "page tree refers to objects the parser could not load"@,
        Refusal::DamagedResources =>
            "page content or resources refer to objects the parser could not load"@,
        Refusal::VerificationRegressed(list) => "output failed verification with new problems ["@
            + regression_items(list@, list@.len() as int)
            + "]; nothing written (this is a bug, please report it)"@,
        Refusal::BelowSimilarityFloor(_) =>
            "pages below the similarity floor; nothing written (--strict)"@,
        Refusal::Internal(e) => e@,
    }
}

fn push_regression(out: &mut String, r: (Category, usize, usize), first: bool)
    ensures
        final(out)@ == (if first {
            old(out)@
        } else {
            old(out)@ + ", "@
        }) + "("@ + category_text(r.0) + ", "@ + text::number(r.1 as nat) + ", "@ + text::number(
            r.2 as nat,
        ) + ")"@,
{
    if !first {
        out.append(", ");
    }
    out.append("(");
    out.append(category_name(r.0));
    out.append(", ");
    text::push_number(out, r.1 as u128);
    out.append(", ");
    text::push_number(out, r.2 as u128);
    out.append(")");
}

fn regressions_text(list: &Vec<(Category, usize, usize)>) -> (r: String)
    ensures
        r@ == regression_items(list@, list@.len() as int),
{
    let mut out = String::new();
    let mut i: usize = 0;
    assert(out@ =~= regression_items(list@, 0));
    while i < list.len()
        invariant
            i <= list@.len(),
            out@ == regression_items(list@, i as int),
        decreases list@.len() - i,
    {
        push_regression(&mut out, list[i], i == 0);
        i += 1;
    }
    out
}

impl Refusal {
    /// The message the command prints.
    pub fn to_text(&self) -> (r: String)
        ensures
            r@ == message(*self),
    {
        match self {
            Refusal::Unparseable(e) => {
                let mut out = "parsing the input: ".to_owned();
                out.append(e.as_str());
                out
            },
            Refusal::PasswordRequired =>
                "input is encrypted with a password that is needed to open it".to_owned(),
            Refusal::UndecryptedCryptFilters =>
                "input is encrypted with crypt filters the parser could not read, so it was not decrypted".to_owned(),
            Refusal::DamagedPageTree =>
                "page tree refers to objects the parser could not load".to_owned(),
            Refusal::DamagedResources =>
                "page content or resources refer to objects the parser could not load".to_owned(),
            Refusal::VerificationRegressed(list) => {
                let mut out = "output failed verification with new problems [".to_owned();
                out.append(regressions_text(list).as_str());
                out.append("]; nothing written (this is a bug, please report it)");
                out
            },
            Refusal::BelowSimilarityFloor(_) =>
                "pages below the similarity floor; nothing written (--strict)".to_owned(),
            Refusal::Internal(e) => e.clone(),
        }
    }
}

} // verus!
