//! The AMD architectures that are known, with the versions by which the kernel names them.
use crate::text;
use vstd::prelude::*;

verus! {

/// An AMD architecture.
#[derive(Clone, Copy, Debug, PartialEq, Eq, Structural, Hash)]
pub enum GfxTarget {
    Gfx900,
    Gfx902,
    Gfx904,
    Gfx906,
    Gfx908,
    Gfx909,
    Gfx90a,
    Gfx90c,
    Gfx942,
    Gfx950,
    Gfx1010,
    Gfx1011,
    Gfx1012,
    Gfx1013,
    Gfx1030,
    Gfx1031,
    Gfx1032,
    Gfx1033,
    Gfx1034,
    Gfx1035,
    Gfx1036,
    Gfx1100,
    Gfx1101,
    Gfx1102,
    Gfx1103,
    Gfx1150,
    Gfx1151,
    Gfx1152,
    Gfx1153,
    Gfx1200,
    Gfx1201,
    Gfx1250,
    Gfx1251,
}

impl GfxTarget {
    /// The version by which the kernel names the architecture.
    pub open spec fn number(self) -> i64 {
        match self {
            GfxTarget::Gfx900 => 90_000,
            GfxTarget::Gfx902 => 90_002,
            GfxTarget::Gfx904 => 90_004,
            GfxTarget::Gfx906 => 90_006,
            GfxTarget::Gfx908 => 90_008,
            GfxTarget::Gfx909 => 90_009,
            GfxTarget::Gfx90a => 90_010,
            GfxTarget::Gfx90c => 90_012,
            GfxTarget::Gfx942 => 90_402,
            GfxTarget::Gfx950 => 90_500,
            GfxTarget::Gfx1010 => 100_100,
            GfxTarget::Gfx1011 => 100_101,
            GfxTarget::Gfx1012 => 100_102,
            GfxTarget::Gfx1013 => 100_103,
            GfxTarget::Gfx1030 => 100_300,
            GfxTarget::Gfx1031 => 100_301,
            GfxTarget::Gfx1032 => 100_302,
            GfxTarget::Gfx1033 => 100_303,
            GfxTarget::Gfx1034 => 100_304,
            GfxTarget::Gfx1035 => 100_305,
            GfxTarget::Gfx1036 => 100_306,
            GfxTarget::Gfx1100 => 110_000,
            GfxTarget::Gfx1101 => 110_001,
            GfxTarget::Gfx1102 => 110_002,
            GfxTarget::Gfx1103 => 110_003,
            GfxTarget::Gfx1150 => 110_500,
            GfxTarget::Gfx1151 => 110_501,
            GfxTarget::Gfx1152 => 110_502,
            GfxTarget::Gfx1153 => 110_503,
            GfxTarget::Gfx1200 => 120_000,
            GfxTarget::Gfx1201 => 120_001,
            GfxTarget::Gfx1250 => 120_500,
            GfxTarget::Gfx1251 => 120_501,
        }
    }

    /// The version by which the kernel names the architecture.
    pub fn version(self) -> (r: i64)
        ensures
            r == self.number(),
    {
        match self {
            GfxTarget::Gfx900 => 90_000,
            GfxTarget::Gfx902 => 90_002,
            GfxTarget::Gfx904 => 90_004,
            GfxTarget::Gfx906 => 90_006,
            GfxTarget::Gfx908 => 90_008,
            GfxTarget::Gfx909 => 90_009,
            GfxTarget::Gfx90a => 90_010,
            GfxTarget::Gfx90c => 90_012,
            GfxTarget::Gfx942 => 90_402,
            GfxTarget::Gfx950 => 90_500,
            GfxTarget::Gfx1010 => 100_100,
            GfxTarget::Gfx1011 => 100_101,
            GfxTarget::Gfx1012 => 100_102,
            GfxTarget::Gfx1013 => 100_103,
            GfxTarget::Gfx1030 => 100_300,
            GfxTarget::Gfx1031 => 100_301,
            GfxTarget::Gfx1032 => 100_302,
            GfxTarget::Gfx1033 => 100_303,
            GfxTarget::Gfx1034 => 100_304,
            GfxTarget::Gfx1035 => 100_305,
            GfxTarget::Gfx1036 => 100_306,
            GfxTarget::Gfx1100 => 110_000,
            GfxTarget::Gfx1101 => 110_001,
            GfxTarget::Gfx1102 => 110_002,
            GfxTarget::Gfx1103 => 110_003,
            GfxTarget::Gfx1150 => 110_500,
            GfxTarget::Gfx1151 => 110_501,
            GfxTarget::Gfx1152 => 110_502,
            GfxTarget::Gfx1153 => 110_503,
            GfxTarget::Gfx1200 => 120_000,
            GfxTarget::Gfx1201 => 120_001,
            GfxTarget::Gfx1250 => 120_500,
            GfxTarget::Gfx1251 => 120_501,
        }
    }

    /// The name of the architecture.
    pub open spec fn label(self) -> Seq<char> {
        match self {
            GfxTarget::Gfx900 => "gfx900"@,
            GfxTarget::Gfx902 => "gfx902"@,
            GfxTarget::Gfx904 => "gfx904"@,
            GfxTarget::Gfx906 => "gfx906"@,
            GfxTarget::Gfx908 => "gfx908"@,
            GfxTarget::Gfx909 => "gfx909"@,
            GfxTarget::Gfx90a => "gfx90a"@,
            GfxTarget::Gfx90c => "gfx90c"@,
            GfxTarget::Gfx942 => "gfx942"@,
            GfxTarget::Gfx950 => "gfx950"@,
            GfxTarget::Gfx1010 => "gfx1010"@,
            GfxTarget::Gfx1011 => "gfx1011"@,
            GfxTarget::Gfx1012 => "gfx1012"@,
            GfxTarget::Gfx1013 => "gfx1013"@,
            GfxTarget::Gfx1030 => "gfx1030"@,
            GfxTarget::Gfx1031 => "gfx1031"@,
            GfxTarget::Gfx1032 => "gfx1032"@,
            GfxTarget::Gfx1033 => "gfx1033"@,
            GfxTarget::Gfx1034 => "gfx1034"@,
            GfxTarget::Gfx1035 => "gfx1035"@,
            GfxTarget::Gfx1036 => "gfx1036"@,
            GfxTarget::Gfx1100 => "gfx1100"@,
            GfxTarget::Gfx1101 => "gfx1101"@,
            GfxTarget::Gfx1102 => "gfx1102"@,
            GfxTarget::Gfx1103 => "gfx1103"@,
            GfxTarget::Gfx1150 => "gfx1150"@,
            GfxTarget::Gfx1151 => "gfx1151"@,
            GfxTarget::Gfx1152 => "gfx1152"@,
            GfxTarget::Gfx1153 => "gfx1153"@,
            GfxTarget::Gfx1200 => "gfx1200"@,
            GfxTarget::Gfx1201 => "gfx1201"@,
            GfxTarget::Gfx1250 => "gfx1250"@,
            GfxTarget::Gfx1251 => "gfx1251"@,
        }
    }

    /// The name of the architecture.
    pub fn name(self) -> (r: &'static str)
        ensures
            r@ == self.label(),
    {
        match self {
            GfxTarget::Gfx900 => "gfx900",
            GfxTarget::Gfx902 => "gfx902",
            GfxTarget::Gfx904 => "gfx904",
            GfxTarget::Gfx906 => "gfx906",
            GfxTarget::Gfx908 => "gfx908",
            GfxTarget::Gfx909 => "gfx909",
            GfxTarget::Gfx90a => "gfx90a",
            GfxTarget::Gfx90c => "gfx90c",
            GfxTarget::Gfx942 => "gfx942",
            GfxTarget::Gfx950 => "gfx950",
            GfxTarget::Gfx1010 => "gfx1010",
            GfxTarget::Gfx1011 => "gfx1011",
            GfxTarget::Gfx1012 => "gfx1012",
            GfxTarget::Gfx1013 => "gfx1013",
            GfxTarget::Gfx1030 => "gfx1030",
            GfxTarget::Gfx1031 => "gfx1031",
            GfxTarget::Gfx1032 => "gfx1032",
            GfxTarget::Gfx1033 => "gfx1033",
            GfxTarget::Gfx1034 => "gfx1034",
            GfxTarget::Gfx1035 => "gfx1035",
            GfxTarget::Gfx1036 => "gfx1036",
            GfxTarget::Gfx1100 => "gfx1100",
            GfxTarget::Gfx1101 => "gfx1101",
            GfxTarget::Gfx1102 => "gfx1102",
            GfxTarget::Gfx1103 => "gfx1103",
            GfxTarget::Gfx1150 => "gfx1150",
            GfxTarget::Gfx1151 => "gfx1151",
            GfxTarget::Gfx1152 => "gfx1152",
            GfxTarget::Gfx1153 => "gfx1153",
            GfxTarget::Gfx1200 => "gfx1200",
            GfxTarget::Gfx1201 => "gfx1201",
            GfxTarget::Gfx1250 => "gfx1250",
            GfxTarget::Gfx1251 => "gfx1251",
        }
    }

    /// Whether the architecture is that of a processor with graphics.
    pub open spec fn is_integrated(self) -> bool {
        matches!(self, GfxTarget::Gfx902 | GfxTarget::Gfx909 | GfxTarget::Gfx90c | GfxTarget::Gfx1013 | GfxTarget::Gfx1033 | GfxTarget::Gfx1035 | GfxTarget::Gfx1036 | GfxTarget::Gfx1103 | GfxTarget::Gfx1150 | GfxTarget::Gfx1151 | GfxTarget::Gfx1152 | GfxTarget::Gfx1153)
    }

    /// Whether the architecture is that of a processor with graphics.
    pub fn integrated(self) -> (r: bool)
        ensures
            r == self.is_integrated(),
    {
        matches!(self, GfxTarget::Gfx902 | GfxTarget::Gfx909 | GfxTarget::Gfx90c | GfxTarget::Gfx1013 | GfxTarget::Gfx1033 | GfxTarget::Gfx1035 | GfxTarget::Gfx1036 | GfxTarget::Gfx1103 | GfxTarget::Gfx1150 | GfxTarget::Gfx1151 | GfxTarget::Gfx1152 | GfxTarget::Gfx1153)
    }

    /// Whether the runtime is packaged for the architecture on Windows.
    pub open spec fn is_packaged_for_windows(self) -> bool {
        matches!(self, GfxTarget::Gfx1010 | GfxTarget::Gfx1011 | GfxTarget::Gfx1012 | GfxTarget::Gfx1030 | GfxTarget::Gfx1031 | GfxTarget::Gfx1032 | GfxTarget::Gfx1033 | GfxTarget::Gfx1034 | GfxTarget::Gfx1035 | GfxTarget::Gfx1036 | GfxTarget::Gfx1100 | GfxTarget::Gfx1101 | GfxTarget::Gfx1102 | GfxTarget::Gfx1103 | GfxTarget::Gfx1150 | GfxTarget::Gfx1151 | GfxTarget::Gfx1152 | GfxTarget::Gfx1153 | GfxTarget::Gfx1200 | GfxTarget::Gfx1201)
    }

    /// Whether the runtime is packaged for the architecture on Windows.
    pub fn packaged_for_windows(self) -> (r: bool)
        ensures
            r == self.is_packaged_for_windows(),
    {
        matches!(self, GfxTarget::Gfx1010 | GfxTarget::Gfx1011 | GfxTarget::Gfx1012 | GfxTarget::Gfx1030 | GfxTarget::Gfx1031 | GfxTarget::Gfx1032 | GfxTarget::Gfx1033 | GfxTarget::Gfx1034 | GfxTarget::Gfx1035 | GfxTarget::Gfx1036 | GfxTarget::Gfx1100 | GfxTarget::Gfx1101 | GfxTarget::Gfx1102 | GfxTarget::Gfx1103 | GfxTarget::Gfx1150 | GfxTarget::Gfx1151 | GfxTarget::Gfx1152 | GfxTarget::Gfx1153 | GfxTarget::Gfx1200 | GfxTarget::Gfx1201)
    }

    /// Whether the runtime is packaged for the architecture on Linux.
    pub open spec fn is_packaged_for_linux(self) -> bool {
        matches!(self, GfxTarget::Gfx908 | GfxTarget::Gfx90a | GfxTarget::Gfx942 | GfxTarget::Gfx950 | GfxTarget::Gfx1010 | GfxTarget::Gfx1011 | GfxTarget::Gfx1012 | GfxTarget::Gfx1030 | GfxTarget::Gfx1031 | GfxTarget::Gfx1032 | GfxTarget::Gfx1033 | GfxTarget::Gfx1034 | GfxTarget::Gfx1035 | GfxTarget::Gfx1036 | GfxTarget::Gfx1100 | GfxTarget::Gfx1101 | GfxTarget::Gfx1102 | GfxTarget::Gfx1150 | GfxTarget::Gfx1151 | GfxTarget::Gfx1152 | GfxTarget::Gfx1200 | GfxTarget::Gfx1201)
    }

    /// Whether the runtime is packaged for the architecture on Linux.
    pub fn packaged_for_linux(self) -> (r: bool)
        ensures
            r == self.is_packaged_for_linux(),
    {
        matches!(self, GfxTarget::Gfx908 | GfxTarget::Gfx90a | GfxTarget::Gfx942 | GfxTarget::Gfx950 | GfxTarget::Gfx1010 | GfxTarget::Gfx1011 | GfxTarget::Gfx1012 | GfxTarget::Gfx1030 | GfxTarget::Gfx1031 | GfxTarget::Gfx1032 | GfxTarget::Gfx1033 | GfxTarget::Gfx1034 | GfxTarget::Gfx1035 | GfxTarget::Gfx1036 | GfxTarget::Gfx1100 | GfxTarget::Gfx1101 | GfxTarget::Gfx1102 | GfxTarget::Gfx1150 | GfxTarget::Gfx1151 | GfxTarget::Gfx1152 | GfxTarget::Gfx1200 | GfxTarget::Gfx1201)
    }

    /// Every architecture, by its version.
    pub fn all() -> (r: Vec<GfxTarget>)
        ensures
            forall|target: GfxTarget| #[trigger] r@.contains(target),
            forall|i: int, j: int|
                0 <= i < j < r@.len() ==> (#[trigger] r@[i]).number() < (#[trigger] r@[j]).number(),
    {
        let all = vec![
            GfxTarget::Gfx900,
            GfxTarget::Gfx902,
            GfxTarget::Gfx904,
            GfxTarget::Gfx906,
            GfxTarget::Gfx908,
            GfxTarget::Gfx909,
            GfxTarget::Gfx90a,
            GfxTarget::Gfx90c,
            GfxTarget::Gfx942,
            GfxTarget::Gfx950,
            GfxTarget::Gfx1010,
            GfxTarget::Gfx1011,
            GfxTarget::Gfx1012,
            GfxTarget::Gfx1013,
            GfxTarget::Gfx1030,
            GfxTarget::Gfx1031,
            GfxTarget::Gfx1032,
            GfxTarget::Gfx1033,
            GfxTarget::Gfx1034,
            GfxTarget::Gfx1035,
            GfxTarget::Gfx1036,
            GfxTarget::Gfx1100,
            GfxTarget::Gfx1101,
            GfxTarget::Gfx1102,
            GfxTarget::Gfx1103,
            GfxTarget::Gfx1150,
            GfxTarget::Gfx1151,
            GfxTarget::Gfx1152,
            GfxTarget::Gfx1153,
            GfxTarget::Gfx1200,
            GfxTarget::Gfx1201,
            GfxTarget::Gfx1250,
            GfxTarget::Gfx1251,
        ];
        assert forall|target: GfxTarget| #[trigger] all@.contains(target) by {
            let at: int = match target {
                GfxTarget::Gfx900 => 0,
                GfxTarget::Gfx902 => 1,
                GfxTarget::Gfx904 => 2,
                GfxTarget::Gfx906 => 3,
                GfxTarget::Gfx908 => 4,
                GfxTarget::Gfx909 => 5,
                GfxTarget::Gfx90a => 6,
                GfxTarget::Gfx90c => 7,
                GfxTarget::Gfx942 => 8,
                GfxTarget::Gfx950 => 9,
                GfxTarget::Gfx1010 => 10,
                GfxTarget::Gfx1011 => 11,
                GfxTarget::Gfx1012 => 12,
                GfxTarget::Gfx1013 => 13,
                GfxTarget::Gfx1030 => 14,
                GfxTarget::Gfx1031 => 15,
                GfxTarget::Gfx1032 => 16,
                GfxTarget::Gfx1033 => 17,
                GfxTarget::Gfx1034 => 18,
                GfxTarget::Gfx1035 => 19,
                GfxTarget::Gfx1036 => 20,
                GfxTarget::Gfx1100 => 21,
                GfxTarget::Gfx1101 => 22,
                GfxTarget::Gfx1102 => 23,
                GfxTarget::Gfx1103 => 24,
                GfxTarget::Gfx1150 => 25,
                GfxTarget::Gfx1151 => 26,
                GfxTarget::Gfx1152 => 27,
                GfxTarget::Gfx1153 => 28,
                GfxTarget::Gfx1200 => 29,
                GfxTarget::Gfx1201 => 30,
                GfxTarget::Gfx1250 => 31,
                GfxTarget::Gfx1251 => 32,
            };
            assert(all@[at] == target);
        }
        all
    }

    /// The architecture of a version, where it is known.
    pub open spec fn of_version(version: i64) -> Option<GfxTarget> {
        if exists|target: GfxTarget| #[trigger] target.number() == version {
            Some(choose|target: GfxTarget| #[trigger] target.number() == version)
        } else {
            None
        }
    }

    /// The architecture of a version, where it is known.
    pub fn from_version(version: i64) -> (r: Option<GfxTarget>)
        ensures
            r == Self::of_version(version),
            r matches Some(target) ==> target.number() == version,
            r is None ==> forall|target: GfxTarget| #[trigger] target.number() != version,
    {
        let all = Self::all();
        let mut i: usize = 0;
        while i < all.len()
            invariant
                i <= all@.len(),
                forall|target: GfxTarget| #[trigger] all@.contains(target),
                forall|k: int| 0 <= k < i ==> (#[trigger] all@[k]).number() != version,
            decreases all@.len() - i,
        {
            if all[i].version() == version {
                let found = all[i];
                proof {
                    let chosen = choose|target: GfxTarget| #[trigger] target.number() == version;
                    assert(found.number() == version);
                    lemma_versions_differ(found, chosen);
                }
                return Some(found);
            }
            i += 1;
        }
        assert forall|target: GfxTarget| #[trigger] target.number() != version by {
            assert(all@.contains(target));
            let k = choose|k: int| 0 <= k < all@.len() && all@[k] == target;
            assert(all@[k].number() != version);
        }
        None
    }

    /// The architecture of a name, where it is known.
    pub fn from_name(name: &str) -> (r: Option<GfxTarget>)
        ensures
            r matches Some(target) ==> target.label() == name@,
            r is None ==> forall|target: GfxTarget| #[trigger] target.label() != name@,
    {
        let all = Self::all();
        let mut i: usize = 0;
        while i < all.len()
            invariant
                i <= all@.len(),
                forall|target: GfxTarget| #[trigger] all@.contains(target),
                forall|k: int| 0 <= k < i ==> (#[trigger] all@[k]).label() != name@,
            decreases all@.len() - i,
        {
            if text::same(all[i].name(), name) {
                return Some(all[i]);
            }
            i += 1;
        }
        assert forall|target: GfxTarget| #[trigger] target.label() != name@ by {
            assert(all@.contains(target));
            let k = choose|k: int| 0 <= k < all@.len() && all@[k] == target;
            assert(all@[k].label() != name@);
        }
        None
    }
}

/// No two architectures have one version.
pub proof fn lemma_versions_differ(a: GfxTarget, b: GfxTarget)
    ensures
        a.number() == b.number() ==> a == b,
{
}

/// The digit of a name, in base sixteen.
pub open spec fn digit_of(c: char) -> int {
    if c <= '9' {
        c as int - '0' as int
    } else {
        c as int - 'a' as int + 10
    }
}

/// The version of an architecture is what its name says: behind the letters stand the major version,
/// in one digit or two, then a digit for the minor version and one for the stepping, both in base
/// sixteen. The major version counts ten thousand, the minor one hundred.
pub proof fn lemma_names_tell_versions(target: GfxTarget)
    ensures
        ({
            let l = target.label();
            &&& l.len() == 6 || l.len() == 7
            &&& l[0] == 'g' && l[1] == 'f' && l[2] == 'x'
            &&& l.len() == 6 ==> target.number() == digit_of(l[3]) * 10_000 + digit_of(l[4]) * 100
                + digit_of(l[5])
            &&& l.len() == 7 ==> target.number() == (digit_of(l[3]) * 10 + digit_of(l[4])) * 10_000
                + digit_of(l[5]) * 100 + digit_of(l[6])
        }),
{
    reveal_strlit("gfx900");
    reveal_strlit("gfx902");
    reveal_strlit("gfx904");
    reveal_strlit("gfx906");
    reveal_strlit("gfx908");
    reveal_strlit("gfx909");
    reveal_strlit("gfx90a");
    reveal_strlit("gfx90c");
    reveal_strlit("gfx942");
    reveal_strlit("gfx950");
    reveal_strlit("gfx1010");
    reveal_strlit("gfx1011");
    reveal_strlit("gfx1012");
    reveal_strlit("gfx1013");
    reveal_strlit("gfx1030");
    reveal_strlit("gfx1031");
    reveal_strlit("gfx1032");
    reveal_strlit("gfx1033");
    reveal_strlit("gfx1034");
    reveal_strlit("gfx1035");
    reveal_strlit("gfx1036");
    reveal_strlit("gfx1100");
    reveal_strlit("gfx1101");
    reveal_strlit("gfx1102");
    reveal_strlit("gfx1103");
    reveal_strlit("gfx1150");
    reveal_strlit("gfx1151");
    reveal_strlit("gfx1152");
    reveal_strlit("gfx1153");
    reveal_strlit("gfx1200");
    reveal_strlit("gfx1201");
    reveal_strlit("gfx1250");
    reveal_strlit("gfx1251");
}

} // verus!
