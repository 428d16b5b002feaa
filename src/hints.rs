//! Hint paths and the matcher that descends them one segment at a time.
use crate::number::NumType;
use vstd::prelude::*;

verus! {

/// The segment that matches every property name and every array index.
pub open spec fn wildcard() -> Seq<char> {
    seq!['-']
}

/// Whether a path's head lets it follow the child position `key`.
pub open spec fn head_matches(path: Seq<String>, key: Seq<char>) -> bool {
    path.len() > 0 && (path[0]@ == wildcard() || path[0]@ == key)
}

/// The paths that are still in play below the child position `key`, in order.
pub open spec fn descend(paths: Seq<Seq<String>>, key: Seq<char>) -> Seq<Seq<String>>
    decreases paths.len(),
{
    if paths.len() == 0 {
        Seq::empty()
    } else {
        let rest = descend(paths.drop_last(), key);
        let p = paths.last();
        if head_matches(p, key) {
            rest.push(p.drop_first())
        } else {
            rest
        }
    }
}

/// Some path ends exactly at the current position.
pub open spec fn any_empty(paths: Seq<Seq<String>>) -> bool {
    exists|i: int| 0 <= i < paths.len() && #[trigger] paths[i].len() == 0
}

/// The single segment of the first path that has exactly one segment left.
pub open spec fn first_single(paths: Seq<Seq<String>>) -> Option<Seq<char>>
    decreases paths.len(),
{
    if paths.len() == 0 {
        None
    } else if paths[0].len() == 1 {
        Some(paths[0][0]@)
    } else {
        first_single(paths.drop_first())
    }
}

/// A set of hint paths, held as the tails still in play at the current position.
pub struct HintSet<'a> {
    values: Vec<&'a [String]>,
}

impl<'a> HintSet<'a> {
    /// The tails of the paths, in the order they were given.
    pub closed spec fn view(&self) -> Seq<Seq<String>> {
        self.values@.map_values(|p: &'a [String]| p@)
    }

    /// Each element of `values` is one path; each of its elements one segment.
    pub fn new(values: Vec<&'a [String]>) -> (r: Self)
        ensures
            r@ == values@.map_values(|p: &'a [String]| p@),
    {
        HintSet { values }
    }

    /// The paths below the child position `key`: those whose head is `key` or the
    /// wildcard, without that head.
    pub fn sub_hints(&self, key: &str) -> (r: Self)
        ensures
            r@ == descend(self@, key@),
    {
        let key_s = key.to_owned();
        let wild = "-".to_owned();
        proof {
            reveal_strlit("-");
        }
        let mut out: Vec<&'a [String]> = Vec::new();
        let mut i: usize = 0;
        while i < self.values.len()
            invariant
                i <= self.values@.len(),
                key_s@ == key@,
                wild@ == wildcard(),
                out@.map_values(|p: &'a [String]| p@) == descend(
                    self@.subrange(0, i as int),
                    key@,
                ),
            decreases self.values.len() - i,
        {
            let p: &'a [String] = self.values[i];
            proof {
                assert(self@.subrange(0, i + 1).drop_last() == self@.subrange(0, i as int));
            }
            if p.len() > 0 && (p[0] == wild || p[0] == key_s) {
                let tail: &'a [String] = &p[1..p.len()];
                out.push(tail);
                proof {
                    assert(out@.map_values(|p: &'a [String]| p@) =~= descend(
                        self@.subrange(0, i + 1),
                        key@,
                    ));
                }
            }
            i = i + 1;
        }
        proof {
            assert(self@.subrange(0, self@.len() as int) == self@);
        }
        HintSet { values: out }
    }

    /// Whether some path ends exactly here.
    pub fn is_active(&self) -> (r: bool)
        ensures
            r == any_empty(self@),
    {
        let mut i: usize = 0;
        while i < self.values.len()
            invariant
                i <= self.values@.len(),
                forall|j: int| 0 <= j < i ==> self@[j].len() != 0,
            decreases self.values.len() - i,
        {
            if self.values[i].len() == 0 {
                assert(self@[i as int].len() == 0);
                return true;
            }
            i = i + 1;
        }
        false
    }

    /// The remaining segment of the first path that has exactly one segment left.
    pub fn peek_active(&self) -> (r: Option<&str>)
        ensures
            r matches Some(s) ==> first_single(self@) == Some(s@),
            r is None ==> first_single(self@) is None,
    {
        let mut i: usize = 0;
        proof {
            assert(self@.subrange(0, self@.len() as int) == self@);
        }
        while i < self.values.len()
            invariant
                i <= self.values@.len(),
                first_single(self@) == first_single(self@.subrange(i as int, self@.len() as int)),
            decreases self.values.len() - i,
        {
            let p: &'a [String] = self.values[i];
            proof {
                assert(self@.subrange(i as int, self@.len() as int).drop_first() =~= self@.subrange(
                    i + 1,
                    self@.len() as int,
                ));
            }
            if p.len() == 1 {
                return Some(p[0].as_str());
            }
            i = i + 1;
        }
        None
    }
}

/// What a [`Hints`] bundle says at one position.
pub struct HintsModel {
    pub default_num_type: NumType,
    pub enums: Seq<Seq<String>>,
    pub values: Seq<Seq<String>>,
    pub discriminator: Seq<Seq<String>>,
}

impl HintsModel {
    /// The bundle at the child position `key`: all three path sets descended.
    pub open spec fn sub(self, key: Seq<char>) -> HintsModel {
        HintsModel {
            default_num_type: self.default_num_type,
            enums: descend(self.enums, key),
            values: descend(self.values, key),
            discriminator: descend(self.discriminator, key),
        }
    }

    pub open spec fn enum_active(self) -> bool {
        any_empty(self.enums)
    }

    pub open spec fn values_active(self) -> bool {
        any_empty(self.values)
    }

    pub open spec fn discriminator_key(self) -> Option<Seq<char>> {
        first_single(self.discriminator)
    }
}

/// Hints that steer inference toward the enum, values and discriminator forms,
/// and the numeric type to prefer when the data fits it.
pub struct Hints<'a> {
    default_num_type: NumType,
    enums: HintSet<'a>,
    values: HintSet<'a>,
    discriminator: HintSet<'a>,
}

impl<'a> Hints<'a> {
    pub closed spec fn view(&self) -> HintsModel {
        HintsModel {
            default_num_type: self.default_num_type,
            enums: self.enums@,
            values: self.values@,
            discriminator: self.discriminator@,
        }
    }

    /// Bundles a preferred numeric type with the enum, values and discriminator
    /// path sets.
    pub fn new(
        default_num_type: NumType,
        enums: HintSet<'a>,
        values: HintSet<'a>,
        discriminator: HintSet<'a>,
    ) -> (r: Self)
        ensures
            r@ == (HintsModel {
                default_num_type,
                enums: enums@,
                values: values@,
                discriminator: discriminator@,
            }),
    {
        Hints { default_num_type, enums, values, discriminator }
    }

    pub fn default_num_type(&self) -> (r: &NumType)
        ensures
            *r == self@.default_num_type,
    {
        &self.default_num_type
    }

    /// The hints at the child position `key`.
    pub fn sub_hints(&self, key: &str) -> (r: Self)
        ensures
            r@ == self@.sub(key@),
    {
        Self::new(
            self.default_num_type,
            self.enums.sub_hints(key),
            self.values.sub_hints(key),
            self.discriminator.sub_hints(key),
        )
    }

    pub fn is_enum_active(&self) -> (r: bool)
        ensures
            r == self@.enum_active(),
    {
        self.enums.is_active()
    }

    pub fn is_values_active(&self) -> (r: bool)
        ensures
            r == self@.values_active(),
    {
        self.values.is_active()
    }

    pub fn peek_active_discriminator(&self) -> (r: Option<&str>)
        ensures
            r matches Some(s) ==> self@.discriminator_key() == Some(s@),
            r is None ==> self@.discriminator_key() is None,
    {
        self.discriminator.peek_active()
    }
}

} // verus!
