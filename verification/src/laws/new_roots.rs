//! The root directory of a new volume, byte by byte.
use vstd::prelude::*;

use crate::entry::{checksum_of, decode, DirEntry};
use crate::label::Label;
use crate::laws::entries::{
    law_bitmap_bytes, law_checksum_bytes, law_other_bytes, law_upcase_table_bytes,
    law_volume_guid_bytes, law_volume_label_bytes,
};
use crate::laws::numbers::{eight, four, sixteen, two};
use crate::raw_root::{encode_all, is_new_root, law_encode_all_slices};

verus! {

/// The bytes of `b` from `from` to `to` are zero.
pub open spec fn zero_between(b: Seq<u8>, from: int, to: int) -> bool {
    forall|i: int| from <= i < to ==> #[trigger] b[i] == 0
}

proof fn lemma_slices(entries: Seq<DirEntry>)
    requires
        entries.len() == 4,
    ensures
        encode_all(entries).len() == 128,
        forall|i: int, k: int|
            0 <= i < 4 && 0 <= k < 32 ==> #[trigger] entries[i].encode()[k] == encode_all(
                entries,
            )[32 * i + k],
{
    law_encode_all_slices(entries, 0);
    assert forall|i: int, k: int|
        0 <= i < 4 && 0 <= k < 32 implies #[trigger] entries[i].encode()[k] == encode_all(
        entries,
    )[32 * i + k] by {
        law_encode_all_slices(entries, i);
        assert(encode_all(entries).subrange(32 * i, 32 * i + 32)[k] == encode_all(entries)[32 * i
            + k]);
    }
}

/// Numbers and bytes of an entry stand in the whole `32 * i` bytes further on.
proof fn lemma_entry_in_whole(entries: Seq<DirEntry>, i: int)
    requires
        entries.len() == 4,
        0 <= i < 4,
    ensures
        ({
            let b = encode_all(entries);
            let e = entries[i].encode();
            &&& forall|k: int| 0 <= k < 32 ==> #[trigger] e[k] == b[32 * i + k]
            &&& forall|k: int| 0 <= k <= 30 ==> #[trigger] two(e, k) == two(b, 32 * i + k)
            &&& forall|k: int| 0 <= k <= 28 ==> #[trigger] four(e, k) == four(b, 32 * i + k)
            &&& forall|k: int| 0 <= k <= 24 ==> #[trigger] eight(e, k) == eight(b, 32 * i + k)
            &&& forall|k: int| 0 <= k <= 16 ==> #[trigger] sixteen(e, k) == sixteen(b, 32 * i + k)
        }),
{
    lemma_slices(entries);
    let b = encode_all(entries);
    let e = entries[i].encode();
    assert forall|k: int| 0 <= k <= 30 implies #[trigger] two(e, k) == two(b, 32 * i + k) by {
        assert(e[k] == b[32 * i + k]);
        assert(e[k + 1] == b[32 * i + (k + 1)]);
    }
    assert forall|k: int| 0 <= k <= 28 implies #[trigger] four(e, k) == four(b, 32 * i + k) by {
        assert(two(e, k) == two(b, 32 * i + k));
        assert(two(e, k + 2) == two(b, 32 * i + (k + 2)));
    }
    assert forall|k: int| 0 <= k <= 24 implies #[trigger] eight(e, k) == eight(b, 32 * i + k) by {
        assert(four(e, k) == four(b, 32 * i + k));
        assert(four(e, k + 4) == four(b, 32 * i + (k + 4)));
    }
    assert forall|k: int| 0 <= k <= 16 implies #[trigger] sixteen(e, k) == sixteen(
        b,
        32 * i + k,
    ) by {
        assert(eight(e, k) == eight(b, 32 * i + k));
        assert(eight(e, k + 8) == eight(b, 32 * i + (k + 8)));
    }
}

/// The first 32 bytes of a new root directory hold the label.
pub proof fn law_new_root_label(
    entries: Seq<DirEntry>,
    label: Label,
    guid: Option<u128>,
    bitmap_length_bytes: u64,
    uptable_start_cluster: u32,
)
    requires
        is_new_root(entries, label, guid, bitmap_length_bytes, uptable_start_cluster),
    ensures
        ({
            let b = encode_all(entries);
            &&& b.len() == 128
            &&& b[0] == 0x83
            &&& b[1] == label.1
            &&& b.subrange(2, 24) == label.0@
            &&& eight(b, 24) == 0
        }),
{
    let b = encode_all(entries);
    let e = entries[0]->VolumeLabel_0;
    law_volume_label_bytes(e);
    lemma_slices(entries);
    lemma_entry_in_whole(entries, 0);
    let s = entries[0].encode();
    assert(s[0] == b[0] && s[1] == b[1]);
    assert(eight(s, 24) == eight(b, 24));
    assert(b.subrange(2, 24) =~= s.subrange(2, 24)) by {
        assert forall|k: int| 0 <= k < 22 implies b.subrange(2, 24)[k] == s.subrange(2, 24)[k] by {
            assert(s[k + 2] == b[32 * 0 + (k + 2)]);
        }
    }
}

/// The next 32 bytes of a new root directory hold the identifier and the checksum
/// of the entry, or are out of use where there is no identifier.
pub proof fn law_new_root_guid(
    entries: Seq<DirEntry>,
    label: Label,
    guid: Option<u128>,
    bitmap_length_bytes: u64,
    uptable_start_cluster: u32,
)
    requires
        is_new_root(entries, label, guid, bitmap_length_bytes, uptable_start_cluster),
    ensures
        ({
            let b = encode_all(entries);
            match guid {
                None => b[32] == 0x20 && zero_between(b, 33, 64),
                Some(guid) => {
                    &&& b[32] == 0xA0
                    &&& b[33] == 0
                    &&& two(b, 34) == checksum_of(0, b.subrange(32, 34) + b.subrange(36, 64))
                    &&& two(b, 36) == 0
                    &&& sixteen(b, 38) == guid
                    &&& zero_between(b, 54, 64)
                },
            }
        }),
{
    let b = encode_all(entries);
    let s = entries[1].encode();
    lemma_slices(entries);
    lemma_entry_in_whole(entries, 1);
    assert forall|k: int| 32 <= k < 64 implies #[trigger] b[k] == s[k - 32] by {
        assert(s[k - 32] == b[32 * 1 + (k - 32)]);
    }
    match guid {
        None => {
            let t = entries[1]->Unused_0;
            let rest = entries[1]->Unused_1;
            law_other_bytes(t, rest);
            assert forall|k: int| 33 <= k < 64 implies #[trigger] b[k] == 0 by {
                assert(s.skip(1)[k - 33] == rest@[k - 33]);
            }
        },
        Some(guid) => {
            let e = entries[1]->VolumeGuid_0;
            law_volume_guid_bytes(e);
            law_checksum_bytes(entries[1]);
            assert(two(s, 2) == two(b, 34));
            assert(two(s, 4) == two(b, 36));
            assert(sixteen(s, 6) == sixteen(b, 38));
            assert(entries[1].checked_bytes() =~= b.subrange(32, 34) + b.subrange(36, 64));
            assert forall|k: int| 54 <= k < 64 implies #[trigger] b[k] == 0 by {
                assert(s.subrange(22, 32)[k - 54] == e._reserved@[k - 54]);
            }
        },
    }
}

/// The third 32 bytes of a new root directory say that the allocation bitmap has
/// the length that was asked for and begins at the first cluster, wherever the
/// up-case table begins.
pub proof fn law_new_root_bitmap(
    entries: Seq<DirEntry>,
    label: Label,
    guid: Option<u128>,
    bitmap_length_bytes: u64,
    uptable_start_cluster: u32,
)
    requires
        is_new_root(entries, label, guid, bitmap_length_bytes, uptable_start_cluster),
    ensures
        ({
            let b = encode_all(entries);
            &&& b[64] == 0x81
            &&& b[65] == 0
            &&& zero_between(b, 66, 84)
            &&& four(b, 84) == 2
            &&& eight(b, 88) == bitmap_length_bytes
            &&& decode(b.subrange(64, 96)) matches Some(DirEntry::Bitmap(e)) && e.data_len
                == bitmap_length_bytes && e.first_cluster == 2 && e.flags == 0
        }),
{
    let b = encode_all(entries);
    let s = entries[2].encode();
    let e = entries[2]->Bitmap_0;
    law_bitmap_bytes(e);
    lemma_slices(entries);
    lemma_entry_in_whole(entries, 2);
    assert(s[0] == b[64] && s[1] == b[65]);
    assert(four(s, 20) == four(b, 84));
    assert(eight(s, 24) == eight(b, 88));
    assert forall|k: int| 66 <= k < 84 implies #[trigger] b[k] == 0 by {
        assert(s[k - 64] == b[32 * 2 + (k - 64)]);
        assert(s.subrange(2, 20)[k - 66] == e._reserved@[k - 66]);
    }
    law_encode_all_slices(entries, 2);
    DirEntry::law_decode_of_encode(entries[2]);
}

/// The last 32 bytes of a new root directory say where the up-case table begins,
/// how long it is, and its checksum.
pub proof fn law_new_root_upcase_table(
    entries: Seq<DirEntry>,
    label: Label,
    guid: Option<u128>,
    bitmap_length_bytes: u64,
    uptable_start_cluster: u32,
)
    requires
        is_new_root(entries, label, guid, bitmap_length_bytes, uptable_start_cluster),
    ensures
        ({
            let b = encode_all(entries);
            &&& b[96] == 0x82
            &&& zero_between(b, 97, 100)
            &&& four(b, 100) == 0xE619_D30D
            &&& zero_between(b, 104, 116)
            &&& four(b, 116) == uptable_start_cluster
            &&& eight(b, 120) == 5836
        }),
{
    let b = encode_all(entries);
    let s = entries[3].encode();
    let e = entries[3]->UpcaseTable_0;
    law_upcase_table_bytes(e);
    lemma_slices(entries);
    lemma_entry_in_whole(entries, 3);
    assert(s[0] == b[96]);
    assert(four(s, 4) == four(b, 100));
    assert(four(s, 20) == four(b, 116));
    assert(eight(s, 24) == eight(b, 120));
    assert forall|k: int| 97 <= k < 100 implies #[trigger] b[k] == 0 by {
        assert(s[k - 96] == b[32 * 3 + (k - 96)]);
        assert(s.subrange(1, 4)[k - 97] == e._reserved1@[k - 97]);
    }
    assert forall|k: int| 104 <= k < 116 implies #[trigger] b[k] == 0 by {
        assert(s[k - 96] == b[32 * 3 + (k - 96)]);
        assert(s.subrange(8, 20)[k - 104] == e._reserved2@[k - 104]);
    }
}

} // verus!
