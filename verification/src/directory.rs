//! What decoding gives back of a directory that encoding wrote: the images
//! are named by number, read back with their last byte dropped, decoded each
//! to its text, and the texts put together in the order of their names.
use vstd::prelude::*;
use vstd::utf8::{decode_utf8, encode_utf8, valid_utf8};
use crate::decode::{
    ascii_text, distinct_names, hidden_or_empty, is_ascii_bytes, lemma_ascii_utf8,
    lemma_flatten_ascii, lemma_sorted_by_name_unique, name_le, sorted_by_name, texts,
};
use crate::header::{lemma_header_depends_on_prefix, lemma_header_offset_in_bounds};
use crate::names::{file_name_bytes, lemma_file_names_sorted};
use crate::plan::{
    chunk_ok, encode_admissible, encodes, image_offset, is_image, lemma_flatten_pieces,
    lemma_plan_partitions_message, lemma_repeated, pieces, plan_chunks, repeated,
};
use crate::stego::{embeds, fits, lemma_hidden_message_of_embedding};

verus! {

/// An image as reading its file gives it back: without its last byte.
pub open spec fn stored(img: Seq<u8>) -> Seq<u8> {
    img.drop_last()
}

/// The bytes that decoding an image reads after its header.
pub open spec fn decoded_bytes(data: Seq<u8>) -> Seq<u8> {
    hidden_or_empty(data, image_offset(data))
}

/// Every piece, and its terminator, still fits when the last byte of its
/// output image is dropped.
pub open spec fn room_after_cut(outputs: Seq<Seq<u8>>, message: Seq<u8>, imgs: Seq<Seq<u8>>) -> bool {
    let plan = plan_chunks(imgs, message.len() as int);
    forall|c: int|
        0 <= c < plan.len() ==> fits(
            (#[trigger] outputs[c]).len() - 1,
            plan[c].2 - plan[c].1,
            image_offset(imgs[plan[c].0]),
        )
}

/// Each stored output image reads back as its piece of the message.
proof fn lemma_stored_piece(message: Seq<u8>, imgs: Seq<Seq<u8>>, outputs: Seq<Seq<u8>>, c: int)
    requires
        encode_admissible(imgs, message.len() as int),
        encodes(outputs, message, imgs),
        room_after_cut(outputs, message, imgs),
        forall|i: int| 0 <= i < message.len() ==> 0 < #[trigger] message[i] < 128,
        0 <= c < outputs.len(),
    ensures
        is_image(stored(outputs[c])),
        decoded_bytes(stored(outputs[c])) == pieces(message, plan_chunks(imgs, message.len() as int))[c],
        is_ascii_bytes(decoded_bytes(stored(outputs[c]))),
{
    let max = message.len() as int;
    let plan = plan_chunks(imgs, max);
    lemma_plan_partitions_message(imgs, max);
    let ch = plan[c];
    assert(chunk_ok(imgs, max, ch));
    let src = imgs[ch.0];
    let data = repeated(src, ch.3);
    let piece = message.subrange(ch.1, ch.2);
    let off = image_offset(src);
    let out = outputs[c];
    lemma_repeated(src, ch.3);
    lemma_header_offset_in_bounds(src);
    assert(embeds(out, data, piece, off));
    let out2 = out.drop_last();
    let data2 = data.drop_last();
    assert(fits(out.len() - 1, piece.len() as int, off));
    assert(embeds(out2, data2, piece, off)) by {
        assert forall|k: int, b: int| 0 <= k < piece.len() && 0 <= b < 8 implies out2[
            #[trigger] crate::stego::slot(off, k, b)] == crate::stego::with_lsb(
            data2[crate::stego::slot(off, k, b)],
            crate::stego::msb_bit(piece[k], b as u8),
        ) by {
            assert(out[crate::stego::slot(off, k, b)] == crate::stego::with_lsb(
                data[crate::stego::slot(off, k, b)],
                crate::stego::msb_bit(piece[k], b as u8),
            ));
        }
        assert forall|b: int| 0 <= b < 8 implies out2[#[trigger] crate::stego::slot(
            off,
            piece.len() as int,
            b,
        )] == crate::stego::with_lsb(data2[crate::stego::slot(off, piece.len() as int, b)], false) by {
            assert(out[crate::stego::slot(off, piece.len() as int, b)] == crate::stego::with_lsb(
                data[crate::stego::slot(off, piece.len() as int, b)],
                false,
            ));
        }
        assert forall|i: int|
            0 <= i < data2.len() && !(off <= i < off + 8 * (piece.len() + 1)) implies #[trigger] out2[i]
            == data2[i] by {
            assert(out[i] == data[i]);
        }
    }
    lemma_hidden_message_of_embedding(out2, data2, piece, off);
    assert forall|m: int| 0 <= m < off implies #[trigger] out2[m] == src[m] by {
        assert(!(off <= m < off + 8 * (piece.len() + 1)));
        assert(out[m] == data[m]);
        assert(data[m] == src[m]);
    }
    lemma_header_depends_on_prefix(src, out2);
    assert(pieces(message, plan)[c] == piece);
    assert forall|i: int| 0 <= i < piece.len() implies #[trigger] piece[i] < 128 by {
        assert(piece[i] == message[ch.1 + i]);
    }
}

/// Decoding a directory that encoding wrote prints the message again. The
/// outputs, fewer than a hundred million, are named by their numbers behind
/// a common `prefix`; each is read back without its last byte and decoded
/// to its text, which succeeds; and the texts, put together in the order of
/// the names, are the message, when it is ASCII without a zero byte and every
/// piece still fits once the last byte of its image is dropped.
pub proof fn lemma_directory_roundtrip(
    message: Seq<u8>,
    imgs: Seq<Seq<u8>>,
    outputs: Seq<Seq<u8>>,
    prefix: Seq<u8>,
    files: Seq<(String, String)>,
    s: Seq<(String, String)>,
)
    requires
        encode_admissible(imgs, message.len() as int),
        encodes(outputs, message, imgs),
        room_after_cut(outputs, message, imgs),
        forall|i: int| 0 <= i < message.len() ==> 0 < #[trigger] message[i] < 128,
        outputs.len() <= 100_000_000,
        files.len() == outputs.len(),
        forall|k: int|
            0 <= k < files.len() ==> encode_utf8((#[trigger] files[k]).0@) == prefix
                + file_name_bytes(k as nat),
        forall|k: int|
            0 <= k < files.len() ==> (#[trigger] files[k]).1@ == decode_utf8(
                decoded_bytes(stored(outputs[k])),
            ),
        s.to_multiset() == files.to_multiset(),
        sorted_by_name(s),
    ensures
        forall|k: int|
            0 <= k < outputs.len() ==> is_image(stored(#[trigger] outputs[k])) && valid_utf8(
                decoded_bytes(stored(outputs[k])),
            ),
        texts(s).flatten() == ascii_text(message),
{
    let max = message.len() as int;
    let plan = plan_chunks(imgs, max);
    let ps = pieces(message, plan);
    assert forall|k: int| 0 <= k < outputs.len() implies is_image(stored(#[trigger] outputs[k]))
        && valid_utf8(decoded_bytes(stored(outputs[k]))) && decoded_bytes(stored(outputs[k]))
        == ps[k] by {
        lemma_stored_piece(message, imgs, outputs, k);
        lemma_ascii_utf8(decoded_bytes(stored(outputs[k])));
    }
    assert(sorted_by_name(files)) by {
        assert forall|i: int, j: int| 0 <= i < j < files.len() implies name_le(
            #[trigger] files[i].0,
            #[trigger] files[j].0,
        ) by {
            lemma_file_names_sorted(prefix, i as nat, j as nat);
        }
    }
    assert(distinct_names(files)) by {
        assert forall|i: int, j: int| 0 <= i < j < files.len() implies (#[trigger] files[i]).0@ != (
        #[trigger] files[j]).0@ by {
            lemma_file_names_sorted(prefix, i as nat, j as nat);
        }
    }
    lemma_sorted_by_name_unique(files, s);
    assert(texts(files) =~= Seq::new(ps.len(), |k: int| ascii_text(ps[k]))) by {
        assert forall|k: int| 0 <= k < ps.len() implies texts(files)[k] == ascii_text(ps[k]) by {
            lemma_stored_piece(message, imgs, outputs, k);
            lemma_ascii_utf8(ps[k]);
        }
    }
    lemma_flatten_ascii(ps);
    lemma_plan_partitions_message(imgs, max);
    lemma_flatten_pieces(message, plan, 0, max);
    assert(message.subrange(0, max) =~= message);
}

} // verus!
