//! The composite key of a read name.

use crate::error::JoinError;
use crate::interner::{
    has_room, interned, lemma_index_of_unique, lemma_interned, valid_table, PrimaryKeyMap,
    MAX_ENTRIES,
};
use crate::text::{push_char, split_fields, split_on, views};
use vstd::string::StringExecFns;
use vstd::prelude::*;


verus! {

/// Whether a read name has the seven ':'-separated fields that its key is made of.
pub open spec fn well_formed_name(name: Seq<char>) -> bool {
    split_on(name, ':').len() >= 7
}

/// The four strings a key is made of: the first four fields joined by ':', then the
/// fifth, sixth and seventh field.
pub open spec fn key_fields(name: Seq<char>) -> Seq<Seq<char>> {
    let p = split_on(name, ':');
    seq![
        p[0] + seq![':'] + p[1] + seq![':'] + p[2] + seq![':'] + p[3],
        p[4],
        p[5],
        p[6],
    ]
}

/// The table after the four fields of `name`'s key are interned into `t`, in order.
pub open spec fn encode_table(t: Seq<Seq<char>>, name: Seq<char>) -> Seq<Seq<char>> {
    let f = key_fields(name);
    interned(interned(interned(interned(t, f[0]), f[1]), f[2]), f[3])
}

/// Whether the table has room for the fields of `name`'s key, taken one after another.
pub open spec fn room_for_key(t: Seq<Seq<char>>, name: Seq<char>) -> bool {
    let f = key_fields(name);
    let t1 = interned(t, f[0]);
    let t2 = interned(t1, f[1]);
    let t3 = interned(t2, f[2]);
    has_room(t, f[0]) && has_room(t1, f[1]) && has_room(t2, f[2]) && has_room(t3, f[3])
}

/// The key of `name` against table `t`: the identifier of each of its four fields.
pub open spec fn encoded_key(t: Seq<Seq<char>>, name: Seq<char>) -> Seq<u16> {
    let f = key_fields(name);
    let t4 = encode_table(t, name);
    seq![
        t4.index_of(f[0]) as u16,
        t4.index_of(f[1]) as u16,
        t4.index_of(f[2]) as u16,
        t4.index_of(f[3]) as u16,
    ]
}

/// The four pieces of `name`'s key as strings.
fn key_strings(name: &str) -> (r: Option<Vec<String>>)
    ensures
        match r {
            Some(v) => well_formed_name(name@) && views(v@) == key_fields(name@),
            None => !well_formed_name(name@),
        },
{
    let parts = split_fields(name, ':');
    let ghost p = split_on(name@, ':');
    if parts.len() < 7 {
        return None;
    }
    assert(parts[0]@ == p[0] && parts[1]@ == p[1] && parts[2]@ == p[2] && parts[3]@ == p[3]);
    assert(parts[4]@ == p[4] && parts[5]@ == p[5] && parts[6]@ == p[6]);
    let mut prefix = String::new();
    prefix.append(parts[0].as_str());
    push_char(&mut prefix, ':');
    assert(prefix@ =~= p[0] + seq![':']);
    prefix.append(parts[1].as_str());
    push_char(&mut prefix, ':');
    assert(prefix@ =~= p[0] + seq![':'] + p[1] + seq![':']);
    prefix.append(parts[2].as_str());
    push_char(&mut prefix, ':');
    assert(prefix@ =~= p[0] + seq![':'] + p[1] + seq![':'] + p[2] + seq![':']);
    prefix.append(parts[3].as_str());
    assert(prefix@ =~= key_fields(name@)[0]);
    let mut v: Vec<String> = Vec::new();
    v.push(prefix);
    v.push(parts[4].clone());
    v.push(parts[5].clone());
    v.push(parts[6].clone());
    assert(views(v@) =~= key_fields(name@)) by {
        assert(views(v@)[0] == v@[0]@);
    }
    Some(v)
}

/// The composite key of a read name: the identifiers of its grouped first four fields
/// and of its fifth, sixth and seventh field, interned into `primary_key_map`.
pub fn name_to_readname_key(name: &str, primary_key_map: &mut PrimaryKeyMap) -> (r: Result<
    [u16; 4],
    JoinError,
>)
    requires
        old(primary_key_map).wf(),
    ensures
        final(primary_key_map).wf(),
        match r {
            Ok(k) => {
                &&& well_formed_name(name@)
                &&& room_for_key(old(primary_key_map)@, name@)
                &&& k@ == encoded_key(old(primary_key_map)@, name@)
                &&& final(primary_key_map)@ == encode_table(old(primary_key_map)@, name@)
            },
            Err(e) => {
                &&& !well_formed_name(name@) ==> e == JoinError::MalformedReadName
                    && final(primary_key_map)@ == old(primary_key_map)@
                &&& well_formed_name(name@) ==> e == JoinError::TableFull
                    && !room_for_key(old(primary_key_map)@, name@)
            },
        },
{
    let fields = match key_strings(name) {
        Some(v) => v,
        None => return Err(JoinError::MalformedReadName),
    };
    let ghost f = key_fields(name@);
    assert(views(fields@).len() == fields.len());
    assert(views(fields@)[0] == fields[0]@ && views(fields@)[1] == fields[1]@);
    assert(views(fields@)[2] == fields[2]@ && views(fields@)[3] == fields[3]@);
    let ghost t0 = primary_key_map@;
    proof {
        primary_key_map.lemma_valid();
    }
    let ghost t1 = interned(t0, f[0]);
    let ghost t2 = interned(t1, f[1]);
    let ghost t3 = interned(t2, f[2]);
    let ghost t4 = interned(t3, f[3]);
    assert(fields[0]@ == f[0] && fields[1]@ == f[1] && fields[2]@ == f[2] && fields[3]@ == f[3]);

    if !(primary_key_map.contains(fields[0].as_str()) || primary_key_map.len() < MAX_ENTRIES) {
        return Err(JoinError::TableFull);
    }
    let k0 = primary_key_map.key_for_value(fields[0].as_str());
    proof { lemma_interned(t0, f[0]); }
    if !(primary_key_map.contains(fields[1].as_str()) || primary_key_map.len() < MAX_ENTRIES) {
        return Err(JoinError::TableFull);
    }
    let k1 = primary_key_map.key_for_value(fields[1].as_str());
    proof { lemma_interned(t1, f[1]); }
    if !(primary_key_map.contains(fields[2].as_str()) || primary_key_map.len() < MAX_ENTRIES) {
        return Err(JoinError::TableFull);
    }
    let k2 = primary_key_map.key_for_value(fields[2].as_str());
    proof { lemma_interned(t2, f[2]); }
    if !(primary_key_map.contains(fields[3].as_str()) || primary_key_map.len() < MAX_ENTRIES) {
        return Err(JoinError::TableFull);
    }
    let k3 = primary_key_map.key_for_value(fields[3].as_str());
    proof {
        lemma_interned(t3, f[3]);
        assert(t4[k0 as int] == f[0]);
        assert(t4[k1 as int] == f[1]);
        assert(t4[k2 as int] == f[2]);
        lemma_index_of_unique(t4, f[0], k0 as int);
        lemma_index_of_unique(t4, f[1], k1 as int);
        lemma_index_of_unique(t4, f[2], k2 as int);
        lemma_index_of_unique(t4, f[3], k3 as int);
    }
    let key = [k0, k1, k2, k3];
    assert(key@ =~= encoded_key(t0, name@));
    Ok(key)
}

/// Encoding is deterministic and settles the table: encoding a name again, against the
/// table that its first encoding left, gives the same key and adds nothing.
pub proof fn lemma_encode_again(t: Seq<Seq<char>>, name: Seq<char>)
    requires
        valid_table(t),
        room_for_key(t, name),
    ensures
        room_for_key(encode_table(t, name), name),
        encode_table(encode_table(t, name), name) == encode_table(t, name),
        encoded_key(encode_table(t, name), name) == encoded_key(t, name),
{
    let f = key_fields(name);
    let t1 = interned(t, f[0]);
    let t2 = interned(t1, f[1]);
    let t3 = interned(t2, f[2]);
    let t4 = interned(t3, f[3]);
    lemma_interned(t, f[0]);
    lemma_interned(t1, f[1]);
    lemma_interned(t2, f[2]);
    lemma_interned(t3, f[3]);
    let i0 = t1.index_of(f[0]);
    let i1 = t2.index_of(f[1]);
    let i2 = t3.index_of(f[2]);
    assert(t4[i0] == f[0] && t4[i1] == f[1] && t4[i2] == f[2]);
    assert(t4.contains(f[0]) && t4.contains(f[1]) && t4.contains(f[2]) && t4.contains(f[3]));
}

} // verus!
