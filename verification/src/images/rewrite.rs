//! Write a chosen encoding back into an image stream's dictionary.
use vstd::prelude::*;

use crate::images::encode;
use crate::images::encode::Encoded;
use crate::images::raster::Raster;
use crate::object::DataStream;

verus! {

/// Replace the stream's data and the keys that describe it. Keys that stay
/// meaningful (`ColorSpace` for indexed and device images, `SMask`,
/// `Mask`, `Interpolate`, `Intent`, `Name`) are kept; ones that described
/// the old encoding (`Decode`, `DecodeParms`, `Filter`) are replaced.
pub fn apply(stream: &mut DataStream, raster: &Raster, encoded: &Encoded)
    requires
        encoded.bytes@.len() <= i64::MAX,
    ensures
        final(stream).dict@ == encode::with_coding(
            encode::without_coding(encode::with_size(old(stream).dict@, raster@)),
            encoded@,
        ),
        final(stream).content@ == encoded.bytes@,
        old(stream).dict.wf() ==> final(stream).dict.wf(),
{
    encode::set_size(&mut stream.dict, raster);
    encode::set_coding(stream, encoded);
}

} // verus!
