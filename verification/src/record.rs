//! The transient decoded form of one dump line: a mapping from attribute
//! name to raw value, looked up by first occurrence.

use vstd::prelude::*;

use crate::textops::slices_eq;

verus! {

/// One decoded attribute: raw name bytes and raw (entity-undecoded) value bytes.
pub struct RawAttr {
    pub name: Vec<u8>,
    pub value: Vec<u8>,
}

/// The mathematical form of one attribute.
pub ghost struct AttrModel {
    pub name: Seq<u8>,
    pub value: Seq<u8>,
}

impl View for RawAttr {
    type V = AttrModel;

    open spec fn view(&self) -> AttrModel {
        AttrModel { name: self.name@, value: self.value@ }
    }
}

/// The decoded attribute set of one record, in document order.
pub struct RawRecord {
    pub attrs: Vec<RawAttr>,
}

/// The models of a list of attributes.
pub open spec fn attr_views(attrs: Seq<RawAttr>) -> Seq<AttrModel> {
    attrs.map_values(|a: RawAttr| a@)
}

impl View for RawRecord {
    type V = Seq<AttrModel>;

    open spec fn view(&self) -> Seq<AttrModel> {
        attr_views(self.attrs@)
    }
}

/// The value of the first attribute named `name`, if any.
pub open spec fn attr_value(attrs: Seq<AttrModel>, name: Seq<u8>) -> Option<Seq<u8>>
    decreases attrs.len(),
{
    if attrs.len() == 0 {
        None
    } else if attrs[0].name == name {
        Some(attrs[0].value)
    } else {
        attr_value(attrs.skip(1), name)
    }
}

/// The record carries an attribute named `name`.
pub open spec fn has_attr(attrs: Seq<AttrModel>, name: Seq<u8>) -> bool {
    attr_value(attrs, name) is Some
}

/// Finds the first attribute named `name`.
pub fn find_attr<'a>(rec: &'a RawRecord, name: &[u8]) -> (r: Option<&'a Vec<u8>>)
    ensures
        r is Some <==> has_attr(rec@, name@),
        r matches Some(v) ==> attr_value(rec@, name@) == Some(v@),
{
    let ghost model = rec@;
    let mut i: usize = 0;
    proof {
        assert(model.skip(0) =~= model);
    }
    while i < rec.attrs.len()
        invariant
            i <= rec.attrs@.len(),
            model == rec@,
            model.len() == rec.attrs@.len(),
            attr_value(model, name@) == attr_value(model.skip(i as int), name@),
        decreases rec.attrs@.len() - i,
    {
        proof {
            assert(model.skip(i as int)[0] == model[i as int]);
            assert(model[i as int] == rec.attrs@[i as int]@);
        }
        if slices_eq(rec.attrs[i].name.as_slice(), name) {
            return Some(&rec.attrs[i].value);
        }
        proof {
            assert(model.skip(i as int).skip(1) =~= model.skip(i as int + 1));
        }
        i = i + 1;
    }
    proof {
        assert(model.skip(i as int) =~= Seq::<AttrModel>::empty());
    }
    None
}

/// The text `Id`.
pub open spec fn n_id() -> Seq<u8> {
    seq![73u8, 100u8]
}

pub fn name_id() -> (r: Vec<u8>)
    ensures
        r@ == n_id(),
{
    let mut r: Vec<u8> = Vec::new();
    r.push(73);
    r.push(100);
    proof {
        assert(r@ =~= n_id());
    }
    r
}

/// The text `PostTypeId`.
pub open spec fn n_post_type_id() -> Seq<u8> {
    seq![80u8, 111u8, 115u8, 116u8, 84u8, 121u8, 112u8, 101u8, 73u8, 100u8]
}

pub fn name_post_type_id() -> (r: Vec<u8>)
    ensures
        r@ == n_post_type_id(),
{
    let mut r: Vec<u8> = Vec::new();
    r.push(80);
    r.push(111);
    r.push(115);
    r.push(116);
    r.push(84);
    r.push(121);
    r.push(112);
    r.push(101);
    r.push(73);
    r.push(100);
    proof {
        assert(r@ =~= n_post_type_id());
    }
    r
}

/// The text `OwnerUserId`.
pub open spec fn n_owner_user_id() -> Seq<u8> {
    seq![79u8, 119u8, 110u8, 101u8, 114u8, 85u8, 115u8, 101u8, 114u8, 73u8, 100u8]
}

pub fn name_owner_user_id() -> (r: Vec<u8>)
    ensures
        r@ == n_owner_user_id(),
{
    let mut r: Vec<u8> = Vec::new();
    r.push(79);
    r.push(119);
    r.push(110);
    r.push(101);
    r.push(114);
    r.push(85);
    r.push(115);
    r.push(101);
    r.push(114);
    r.push(73);
    r.push(100);
    proof {
        assert(r@ =~= n_owner_user_id());
    }
    r
}

/// The text `LastEditorUserId`.
pub open spec fn n_last_editor_user_id() -> Seq<u8> {
    seq![76u8, 97u8, 115u8, 116u8, 69u8, 100u8, 105u8, 116u8, 111u8, 114u8, 85u8, 115u8, 101u8, 114u8, 73u8, 100u8]
}

pub fn name_last_editor_user_id() -> (r: Vec<u8>)
    ensures
        r@ == n_last_editor_user_id(),
{
    let mut r: Vec<u8> = Vec::new();
    r.push(76);
    r.push(97);
    r.push(115);
    r.push(116);
    r.push(69);
    r.push(100);
    r.push(105);
    r.push(116);
    r.push(111);
    r.push(114);
    r.push(85);
    r.push(115);
    r.push(101);
    r.push(114);
    r.push(73);
    r.push(100);
    proof {
        assert(r@ =~= n_last_editor_user_id());
    }
    r
}

/// The text `PostId`.
pub open spec fn n_post_id() -> Seq<u8> {
    seq![80u8, 111u8, 115u8, 116u8, 73u8, 100u8]
}

pub fn name_post_id() -> (r: Vec<u8>)
    ensures
        r@ == n_post_id(),
{
    let mut r: Vec<u8> = Vec::new();
    r.push(80);
    r.push(111);
    r.push(115);
    r.push(116);
    r.push(73);
    r.push(100);
    proof {
        assert(r@ =~= n_post_id());
    }
    r
}

/// The text `PostHistoryTypeId`.
pub open spec fn n_post_history_type_id() -> Seq<u8> {
    seq![80u8, 111u8, 115u8, 116u8, 72u8, 105u8, 115u8, 116u8, 111u8, 114u8, 121u8, 84u8, 121u8, 112u8, 101u8, 73u8, 100u8]
}

pub fn name_post_history_type_id() -> (r: Vec<u8>)
    ensures
        r@ == n_post_history_type_id(),
{
    let mut r: Vec<u8> = Vec::new();
    r.push(80);
    r.push(111);
    r.push(115);
    r.push(116);
    r.push(72);
    r.push(105);
    r.push(115);
    r.push(116);
    r.push(111);
    r.push(114);
    r.push(121);
    r.push(84);
    r.push(121);
    r.push(112);
    r.push(101);
    r.push(73);
    r.push(100);
    proof {
        assert(r@ =~= n_post_history_type_id());
    }
    r
}

/// The text `ContentLicense`.
pub open spec fn n_content_license() -> Seq<u8> {
    seq![67u8, 111u8, 110u8, 116u8, 101u8, 110u8, 116u8, 76u8, 105u8, 99u8, 101u8, 110u8, 115u8, 101u8]
}

pub fn name_content_license() -> (r: Vec<u8>)
    ensures
        r@ == n_content_license(),
{
    let mut r: Vec<u8> = Vec::new();
    r.push(67);
    r.push(111);
    r.push(110);
    r.push(116);
    r.push(101);
    r.push(110);
    r.push(116);
    r.push(76);
    r.push(105);
    r.push(99);
    r.push(101);
    r.push(110);
    r.push(115);
    r.push(101);
    proof {
        assert(r@ =~= n_content_license());
    }
    r
}

/// The text `UserId`.
pub open spec fn n_user_id() -> Seq<u8> {
    seq![85u8, 115u8, 101u8, 114u8, 73u8, 100u8]
}

pub fn name_user_id() -> (r: Vec<u8>)
    ensures
        r@ == n_user_id(),
{
    let mut r: Vec<u8> = Vec::new();
    r.push(85);
    r.push(115);
    r.push(101);
    r.push(114);
    r.push(73);
    r.push(100);
    proof {
        assert(r@ =~= n_user_id());
    }
    r
}

/// The text `Text`.
pub open spec fn n_text() -> Seq<u8> {
    seq![84u8, 101u8, 120u8, 116u8]
}

pub fn name_text() -> (r: Vec<u8>)
    ensures
        r@ == n_text(),
{
    let mut r: Vec<u8> = Vec::new();
    r.push(84);
    r.push(101);
    r.push(120);
    r.push(116);
    proof {
        assert(r@ =~= n_text());
    }
    r
}

/// The text `CreationDate`.
pub open spec fn n_creation_date() -> Seq<u8> {
    seq![67u8, 114u8, 101u8, 97u8, 116u8, 105u8, 111u8, 110u8, 68u8, 97u8, 116u8, 101u8]
}

pub fn name_creation_date() -> (r: Vec<u8>)
    ensures
        r@ == n_creation_date(),
{
    let mut r: Vec<u8> = Vec::new();
    r.push(67);
    r.push(114);
    r.push(101);
    r.push(97);
    r.push(116);
    r.push(105);
    r.push(111);
    r.push(110);
    r.push(68);
    r.push(97);
    r.push(116);
    r.push(101);
    proof {
        assert(r@ =~= n_creation_date());
    }
    r
}

/// The text `VoteTypeId`.
pub open spec fn n_vote_type_id() -> Seq<u8> {
    seq![86u8, 111u8, 116u8, 101u8, 84u8, 121u8, 112u8, 101u8, 73u8, 100u8]
}

pub fn name_vote_type_id() -> (r: Vec<u8>)
    ensures
        r@ == n_vote_type_id(),
{
    let mut r: Vec<u8> = Vec::new();
    r.push(86);
    r.push(111);
    r.push(116);
    r.push(101);
    r.push(84);
    r.push(121);
    r.push(112);
    r.push(101);
    r.push(73);
    r.push(100);
    proof {
        assert(r@ =~= n_vote_type_id());
    }
    r
}

/// The text `CC BY-SA 2.5`.
pub open spec fn license_25() -> Seq<u8> {
    seq![67u8, 67u8, 32u8, 66u8, 89u8, 45u8, 83u8, 65u8, 32u8, 50u8, 46u8, 53u8]
}

pub fn license_25_bytes() -> (r: Vec<u8>)
    ensures
        r@ == license_25(),
{
    let mut r: Vec<u8> = Vec::new();
    r.push(67);
    r.push(67);
    r.push(32);
    r.push(66);
    r.push(89);
    r.push(45);
    r.push(83);
    r.push(65);
    r.push(32);
    r.push(50);
    r.push(46);
    r.push(53);
    proof {
        assert(r@ =~= license_25());
    }
    r
}

/// The text `CC BY-SA 3.0`.
pub open spec fn license_30() -> Seq<u8> {
    seq![67u8, 67u8, 32u8, 66u8, 89u8, 45u8, 83u8, 65u8, 32u8, 51u8, 46u8, 48u8]
}

pub fn license_30_bytes() -> (r: Vec<u8>)
    ensures
        r@ == license_30(),
{
    let mut r: Vec<u8> = Vec::new();
    r.push(67);
    r.push(67);
    r.push(32);
    r.push(66);
    r.push(89);
    r.push(45);
    r.push(83);
    r.push(65);
    r.push(32);
    r.push(51);
    r.push(46);
    r.push(48);
    proof {
        assert(r@ =~= license_30());
    }
    r
}

/// The text `CC BY-SA 4.0`.
pub open spec fn license_40() -> Seq<u8> {
    seq![67u8, 67u8, 32u8, 66u8, 89u8, 45u8, 83u8, 65u8, 32u8, 52u8, 46u8, 48u8]
}

pub fn license_40_bytes() -> (r: Vec<u8>)
    ensures
        r@ == license_40(),
{
    let mut r: Vec<u8> = Vec::new();
    r.push(67);
    r.push(67);
    r.push(32);
    r.push(66);
    r.push(89);
    r.push(45);
    r.push(83);
    r.push(65);
    r.push(32);
    r.push(52);
    r.push(46);
    r.push(48);
    proof {
        assert(r@ =~= license_40());
    }
    r
}

} // verus!
