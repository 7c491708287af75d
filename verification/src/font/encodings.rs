//! The predefined encodings of simple fonts: the glyph name of each code, from
//! code 32 on, with `-` where a code has none.
use vstd::prelude::*;

use crate::bytes;

verus! {

/// The names of the standard encoding.
pub const STANDARD: &'static str = "space exclam quotedbl numbersign dollar percent ampersand quoteright parenleft \
    parenright asterisk plus comma hyphen period slash zero one two three four five six \
    seven eight nine colon semicolon less equal greater question at A B C D E F G H I J \
    K L M N O P Q R S T U V W X Y Z bracketleft backslash bracketright asciicircum \
    underscore quoteleft a b c d e f g h i j k l m n o p q r s t u v w x y z braceleft \
    bar braceright asciitilde - - - - - - - - - - - - - - - - - - - - - - - - - - - - - \
    - - - - - exclamdown cent sterling fraction yen florin section currency quotesingle \
    quotedblleft guillemotleft guilsinglleft guilsinglright fi fl - endash dagger \
    daggerdbl periodcentered - paragraph bullet quotesinglbase quotedblbase \
    quotedblright guillemotright ellipsis perthousand - questiondown - grave acute \
    circumflex tilde macron breve dotaccent dieresis - ring cedilla - hungarumlaut \
    ogonek caron emdash - - - - - - - - - - - - - - - - AE - ordfeminine - - - - Lslash \
    Oslash OE ordmasculine - - - - - ae - - - dotlessi - - lslash oslash oe germandbls \
    - - - -";

/// The names of the Windows encoding.
pub const WIN_ANSI: &'static str = "space exclam quotedbl numbersign dollar percent ampersand quotesingle parenleft \
    parenright asterisk plus comma hyphen period slash zero one two three four five six \
    seven eight nine colon semicolon less equal greater question at A B C D E F G H I J \
    K L M N O P Q R S T U V W X Y Z bracketleft backslash bracketright asciicircum \
    underscore grave a b c d e f g h i j k l m n o p q r s t u v w x y z braceleft bar \
    braceright asciitilde - Euro - quotesinglbase florin quotedblbase ellipsis dagger \
    daggerdbl circumflex perthousand Scaron guilsinglleft OE - Zcaron - - quoteleft \
    quoteright quotedblleft quotedblright bullet endash emdash tilde trademark scaron \
    guilsinglright oe - zcaron Ydieresis space exclamdown cent sterling currency yen \
    brokenbar section dieresis copyright ordfeminine guillemotleft logicalnot hyphen \
    registered macron degree plusminus twosuperior threesuperior acute mu paragraph \
    periodcentered cedilla onesuperior ordmasculine guillemotright onequarter onehalf \
    threequarters questiondown Agrave Aacute Acircumflex Atilde Adieresis Aring AE \
    Ccedilla Egrave Eacute Ecircumflex Edieresis Igrave Iacute Icircumflex Idieresis \
    Eth Ntilde Ograve Oacute Ocircumflex Otilde Odieresis multiply Oslash Ugrave Uacute \
    Ucircumflex Udieresis Yacute Thorn germandbls agrave aacute acircumflex atilde \
    adieresis aring ae ccedilla egrave eacute ecircumflex edieresis igrave iacute \
    icircumflex idieresis eth ntilde ograve oacute ocircumflex otilde odieresis divide \
    oslash ugrave uacute ucircumflex udieresis yacute thorn ydieresis";

/// The names of the Macintosh encoding.
pub const MAC_ROMAN: &'static str = "space exclam quotedbl numbersign dollar percent ampersand quotesingle parenleft \
    parenright asterisk plus comma hyphen period slash zero one two three four five six \
    seven eight nine colon semicolon less equal greater question at A B C D E F G H I J \
    K L M N O P Q R S T U V W X Y Z bracketleft backslash bracketright asciicircum \
    underscore grave a b c d e f g h i j k l m n o p q r s t u v w x y z braceleft bar \
    braceright asciitilde - Adieresis Aring Ccedilla Eacute Ntilde Odieresis Udieresis \
    aacute agrave acircumflex adieresis atilde aring ccedilla eacute egrave ecircumflex \
    edieresis iacute igrave icircumflex idieresis ntilde oacute ograve ocircumflex \
    odieresis otilde uacute ugrave ucircumflex udieresis dagger degree cent sterling \
    section bullet paragraph germandbls registered copyright trademark acute dieresis - \
    AE Oslash - plusminus - - yen mu - - - - - ordfeminine ordmasculine - ae oslash \
    questiondown exclamdown logicalnot - florin - - guillemotleft guillemotright \
    ellipsis space Agrave Atilde Otilde OE oe endash emdash quotedblleft quotedblright \
    quoteleft quoteright divide - ydieresis Ydieresis fraction currency guilsinglleft \
    guilsinglright fi fl daggerdbl periodcentered quotesinglbase quotedblbase \
    perthousand Acircumflex Ecircumflex Aacute Edieresis Egrave Iacute Icircumflex \
    Idieresis Igrave Oacute Ocircumflex - Ograve Uacute Ucircumflex Ugrave dotlessi \
    circumflex tilde macron breve dotaccent ring cedilla hungarumlaut ogonek caron";

/// Where the word that starts at `i` ends.
pub open spec fn word_end(s: Seq<u8>, i: int) -> int
    decreases s.len() - i,
{
    if i < 0 || i >= s.len() || s[i] == ' ' as u8 {
        i
    } else {
        word_end(s, i + 1)
    }
}

/// The word `n` of a text of words with one space between them, counted from
/// the one that starts at `i`.
pub open spec fn word(s: Seq<u8>, i: int, n: int) -> Option<Seq<u8>>
    decreases n,
{
    if i < 0 || i >= s.len() || n < 0 {
        None
    } else if n == 0 {
        Some(s.subrange(i, word_end(s, i)))
    } else {
        word(s, word_end(s, i) + 1, n - 1)
    }
}

/// The glyph name of a code in a table of names.
pub open spec fn name_in(table: Seq<char>, code: u8) -> Option<Seq<u8>> {
    match word(bytes::text(table), 0, code - 32) {
        Some(w) => if w == bytes::text("-"@) {
            None
        } else {
            Some(w)
        },
        None => None,
    }
}

fn find_end(s: &[u8], i: usize) -> (r: usize)
    requires
        i <= s@.len(),
    ensures
        r == word_end(s@, i as int),
        i <= r <= s@.len(),
{
    let mut j: usize = i;
    while j < s.len() && s[j] != (' ' as u8)
        invariant
            i <= j <= s@.len(),
            word_end(s@, i as int) == word_end(s@, j as int),
        decreases s@.len() - j,
    {
        j += 1;
    }
    j
}

/// The glyph name of a code in a table of names.
pub fn lookup(table: &str, code: u8) -> (r: Option<Vec<u8>>)
    ensures
        match r {
            Some(n) => name_in(table@, code) == Some(n@),
            None => name_in(table@, code) is None,
        },
{
    if code < 32 {
        return None;
    }
    let s = bytes::of(table);
    let mut left: u8 = code - 32;
    let mut i: usize = 0;
    while left > 0
        invariant
            0 <= i <= s@.len(),
            s@ == bytes::text(table@),
            word(s@, 0, code - 32) == word(s@, i as int, left as int),
        decreases left,
    {
        if i >= s.len() {
            return None;
        }
        let end = find_end(&s, i);
        if end >= s.len() {
            assert(word(s@, end + 1, left - 1) is None);
            return None;
        }
        i = end + 1;
        left -= 1;
    }
    if i >= s.len() {
        return None;
    }
    let end = find_end(&s, i);
    let name = bytes::copy_range(&s, i, end);
    if bytes::is_text(&name, "-") {
        None
    } else {
        Some(name)
    }
}

} // verus!
