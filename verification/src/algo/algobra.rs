//! The spelling algebra script: syllables mapped to the spellings that can
//! produce them.

use vstd::prelude::*;

use crate::algo::spelling::Spelling;

verus! {

/// A script: each known syllable with its spellings, keys unique.
pub struct Script {
    pub map: Vec<(String, Vec<Spelling>)>,
}

/// Whether the script knows the syllable.
pub open spec fn script_has_key(map: Seq<(String, Vec<Spelling>)>, key: Seq<char>) -> bool {
    exists|i: int| 0 <= i < map.len() && (#[trigger] map[i]).0@ == key
}

impl Script {
    /// No syllable occurs twice.
    pub open spec fn wf(self) -> bool {
        forall|i: int, j: int| 0 <= i < j < self.map@.len() ==> (#[trigger] self.map@[i]).0@ != (
        #[trigger] self.map@[j]).0@
    }

    /// An empty script.
    pub fn new() -> (s: Self)
        ensures
            s.wf(),
            s.map@.len() == 0,
    {
        Script { map: Vec::new() }
    }

    /// Add a syllable spelled as itself; an already-known syllable is left
    /// alone and reported as such.
    #[verifier::loop_isolation(false)]
    pub fn add_syllable(&mut self, syllable: String) -> (added: bool)
        requires
            old(self).wf(),
        ensures
            final(self).wf(),
            added == !script_has_key(old(self).map@, syllable@),
            added ==> final(self).map@.len() == old(self).map@.len() + 1
                && final(self).map@.last().0@ == syllable@,
            !added ==> final(self).map == old(self).map,
    {
        let n = self.map.len();
        let mut i: usize = 0;
        while i < n
            invariant
                i <= n,
                self.map == old(self).map,
                n == self.map@.len(),
                forall|j: int| 0 <= j < i ==> (#[trigger] self.map@[j]).0@ != syllable@,
            decreases n - i,
        {
            if self.map[i].0 == syllable {
                proof {
                    assert(self.map@[i as int].0@ == syllable@);
                }
                return false;
            }
            i += 1;
        }
        let ghost pre_map = self.map@;
        let spelling = Spelling::from(syllable.clone());
        let mut spellings: Vec<Spelling> = Vec::new();
        spellings.push(spelling);
        self.map.push((syllable, spellings));
        proof {
            assert forall|a: int, b: int|
                0 <= a < b < self.map@.len() implies (#[trigger] self.map@[a]).0@ != (
            #[trigger] self.map@[b]).0@ by {
                if b == self.map@.len() - 1 {
                    assert(self.map@[a] == pre_map[a]);
                    assert(pre_map[a].0@ != syllable@);
                }
            }
        }
        true
    }

    /// The printed tag of a spelling-type code.
    pub fn type_to_char(code: u32) -> (r: char)
        ensures
            r == (match code {
                0u32 => '-',
                1u32 => 'a',
                2u32 => 'c',
                3u32 => '?',
                4u32 => '!',
                _ => ' ',
            }),
    {
        match code {
            0 => '-',
            1 => 'a',
            2 => 'c',
            3 => '?',
            4 => '!',
            _ => ' ',
        }
    }
}

} // verus!
