//! The volumes that the picker offers, and the JSON list of them that the browser fetches.
use vstd::prelude::*;

use crate::text::{decimal_of, push_decimal};
use crate::web::{json_escape, json_escaped};

verus! {

/// A mounted volume: its name, where it is mounted, its size and used bytes, and the type of
/// its file system.
pub struct VolumeInfo {
    pub name: String,
    pub mount_point: String,
    pub total_bytes: u64,
    pub used_bytes: u64,
    pub fs_type: String,
}

/// One volume as a JSON object.
pub open spec fn volume_json_of(v: VolumeInfo) -> Seq<char> {
    "{\"name\":\""@ + json_escaped(v.name@) + "\",\"mountPoint\":\""@ + json_escaped(
        v.mount_point@,
    ) + "\",\"totalBytes\":"@ + decimal_of(v.total_bytes as nat) + ",\"usedBytes\":"@
        + decimal_of(v.used_bytes as nat) + ",\"fsType\":\""@ + json_escaped(v.fs_type@) + "\"}"@
}

/// The JSON objects of `vs`, separated by commas.
pub open spec fn volume_items(vs: Seq<VolumeInfo>) -> Seq<char>
    decreases vs.len(),
{
    if vs.len() == 0 {
        Seq::empty()
    } else if vs.len() == 1 {
        volume_json_of(vs[0])
    } else {
        volume_items(vs.drop_last()) + ","@ + volume_json_of(vs.last())
    }
}

/// The JSON array of `vs`, in order.
pub open spec fn volumes_json_of(vs: Seq<VolumeInfo>) -> Seq<char> {
    "["@ + volume_items(vs) + "]"@
}

/// Appends the JSON object of `v` to `out`.
fn push_volume_json(out: &mut String, v: &VolumeInfo)
    ensures
        final(out)@ == old(out)@ + volume_json_of(*v),
{
    out.push_str("{\"name\":\"");
    out.push_str(json_escape(v.name.as_str()).as_str());
    out.push_str("\",\"mountPoint\":\"");
    out.push_str(json_escape(v.mount_point.as_str()).as_str());
    out.push_str("\",\"totalBytes\":");
    push_decimal(out, v.total_bytes);
    out.push_str(",\"usedBytes\":");
    push_decimal(out, v.used_bytes);
    out.push_str(",\"fsType\":\"");
    out.push_str(json_escape(v.fs_type.as_str()).as_str());
    out.push_str("\"}");
    proof {
        assert(final(out)@ =~= old(out)@ + volume_json_of(*v));
    }
}

/// The JSON array of the volumes, as the browser fetches it.
pub fn volumes_json(volumes: &Vec<VolumeInfo>) -> (json: String)
    ensures
        json@ == volumes_json_of(volumes@),
{
    let mut out = String::new();
    out.push_str("[");
    let mut i: usize = 0;
    proof {
        assert(volumes@.take(0) =~= Seq::<VolumeInfo>::empty());
        assert(out@ =~= "["@ + volume_items(volumes@.take(0)));
    }
    while i < volumes.len()
        invariant
            i <= volumes@.len(),
            out@ == "["@ + volume_items(volumes@.take(i as int)),
        decreases volumes@.len() - i,
    {
        let ghost before = out@;
        if i > 0 {
            out.push_str(",");
        }
        push_volume_json(&mut out, &volumes[i]);
        proof {
            let t = volumes@.take(i + 1);
            assert(t.drop_last() =~= volumes@.take(i as int));
            assert(t.last() == volumes@[i as int]);
            if i == 0 {
                assert(t.len() == 1 && t[0] == volumes@[0]);
                assert(out@ =~= "["@ + volume_items(t));
            } else {
                assert(out@ =~= "["@ + volume_items(t));
            }
        }
        i += 1;
    }
    proof {
        assert(volumes@.take(i as int) =~= volumes@);
    }
    out.push_str("]");
    out
}

/// What the picker calls a Windows drive: its volume label, or `Local Disk` where it has
/// none, then the drive's root in brackets.
pub open spec fn drive_label_of(label: Seq<char>, root: Seq<char>) -> Seq<char> {
    (if label.len() == 0 {
        "Local Disk"@
    } else {
        label
    }) + " ("@ + root + ")"@
}

/// The name of the Windows drive at `root` whose volume label is `label`.
pub fn drive_label(label: &str, root: &str) -> (name: String)
    ensures
        name@ == drive_label_of(label@, root@),
{
    let mut name = String::new();
    if label.unicode_len() == 0 {
        name.push_str("Local Disk");
    } else {
        name.push_str(label);
    }
    name.push_str(" (");
    name.push_str(root);
    name.push_str(")");
    proof {
        assert(name@ =~= drive_label_of(label@, root@));
    }
    name
}

} // verus!
