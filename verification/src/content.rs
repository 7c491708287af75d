//! Canonical form of a content stream: single spaces, no comments,
//! numbers without redundant digits, everything else verbatim.
//!
//! The rewrite works on tokens, not on parsed objects: the parser reads
//! reals into single precision, so re-emitting from its operator list would
//! round coordinates, while a token stays the number the producer wrote. The
//! stream is still parsed strictly before and after, and the rewrite is
//! dropped unless both parses agree operation for operation. Streams with
//! inline images are left alone, since their binary data has no token
//! boundaries.
use vstd::prelude::*;

use crate::bytes;
use crate::content::operations::{any_inline_image, decode_strict, same_operations};
use crate::content::tokens::canonical_tokens;

pub mod number;
pub mod operations;
pub mod tokens;

verus! {

/// The stream in canonical token form, or `None` when it does not parse
/// strictly, holds an inline image, or the rewrite fails to parse back to
/// the same operations or to read back as the same tokens.
pub open spec fn canonical_form(content: Seq<u8>) -> Option<Seq<u8>> {
    match (operations::strict_operations(content), tokens::lex(content, 0)) {
        (Some(before), Some(tokens)) => {
            let out = tokens::render(tokens, false);
            if operations::has_inline_image(before) || rewritten(out) != Some(out) {
                None
            } else {
                match operations::strict_operations(out) {
                    Some(after) => if operations::equal_streams(before, after) {
                        Some(out)
                    } else {
                        None
                    },
                    None => None,
                }
            }
        },
        _ => None,
    }
}

/// The tokens of a stream written with the least separation.
pub open spec fn rewritten(content: Seq<u8>) -> Option<Seq<u8>> {
    match tokens::lex(content, 0) {
        Some(tokens) => Some(tokens::render(tokens, false)),
        None => None,
    }
}

/// The stream in canonical token form, or `None` when it does not parse
/// strictly, holds an inline image, or the rewrite fails to parse back to
/// the same operations or to read back as the same tokens. A hex string that
/// opens with a second bracket behind whitespace would not; no stream that
/// parses strictly holds one. A canonical stream is its own canonical form,
/// and never longer than what it was made of.
pub fn canonical(content: &[u8]) -> (r: Option<Vec<u8>>)
    ensures
        match r {
            Some(out) => canonical_form(content@) == Some(out@),
            None => canonical_form(content@) is None,
        },
        r is Some ==> canonical_form(r->0@) == Some(r->0@) && r->0@.len() <= content@.len(),
{
    let before = decode_strict(content)?;
    if any_inline_image(&before) {
        return None;
    }
    let out = canonical_tokens(content)?;
    let again = canonical_tokens(&out)?;
    if !bytes::same(&again, &out) {
        return None;
    }
    let after = decode_strict(&out)?;
    if same_operations(&before, &after) {
        proof {
            lemma_canonical_again(content@);
        }
        Some(out)
    } else {
        None
    }
}

proof fn lemma_canonical_again(content: Seq<u8>)
    requires
        canonical_form(content) is Some,
        operations::all_comparable(
            operations::strict_operations(canonical_form(content)->0)->0,
        ),
    ensures
        canonical_form(canonical_form(content)->0) == canonical_form(content),
        canonical_form(content)->0.len() <= content.len(),
{
    let before = operations::strict_operations(content)->0;
    let out = canonical_form(content)->0;
    let after = operations::strict_operations(out)->0;
    tokens::canonical_form_never_grows(content);
    assert(!operations::has_inline_image(after)) by {
        if operations::has_inline_image(after) {
            let i = choose|i: int|
                0 <= i < after.len() && #[trigger] after[i].operator == "BI"@;
            assert(operations::equal_operations(before[i], after[i]));
            assert(before[i].operator == "BI"@);
        }
    }
    assert(operations::equal_streams(after, after)) by {
        assert forall|i: int| 0 <= i < after.len() implies operations::equal_operations(
            #[trigger] after[i],
            after[i],
        ) by {
            assert(operations::equal_operations(before[i], after[i]));
            assert forall|k: int| 0 <= k < after[i].operands.len() implies operations::equal_operands(
                #[trigger] after[i].operands[k],
                after[i].operands[k],
            ) by {
                assert(operations::comparable(after[i].operands[k]));
            }
        }
    }
}

} // verus!
