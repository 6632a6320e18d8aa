use vstd::prelude::*;

verus! {

/// Mathematical model of an [`Artifact`]: every field replaced by its
/// abstract value, so that contracts can speak of artifacts by content.
pub ghost struct ArtifactModel {
    pub identity: Seq<char>,
    pub content_hash: Seq<char>,
    pub size: u64,
    pub references: Seq<Seq<char>>,
}

/// One content-addressed store artifact.
///
/// `identity` is the unique key (an absolute store path); `content_hash` and
/// `size` are metadata carried through to the remote-cache record and play no
/// part in scheduling; `references` lists the identities this artifact
/// depends on, in declaration order.
pub struct Artifact {
    pub identity: String,
    pub content_hash: String,
    pub size: u64,
    pub references: Vec<String>,
}

impl View for Artifact {
    type V = ArtifactModel;

    open spec fn view(&self) -> ArtifactModel {
        ArtifactModel {
            identity: self.identity@,
            content_hash: self.content_hash@,
            size: self.size,
            references: self.references@.map_values(|r: String| r@),
        }
    }
}

/// The models of a sequence of artifacts, element by element.
pub open spec fn models(s: Seq<Artifact>) -> Seq<ArtifactModel> {
    s.map_values(|a: Artifact| a@)
}

/// Does some artifact in `s` carry the identity `id`?
pub open spec fn has_id(s: Seq<ArtifactModel>, id: Seq<char>) -> bool {
    exists|i: int| 0 <= i < s.len() && s[i].identity == id
}

impl Clone for Artifact {
    fn clone(&self) -> (r: Self)
        ensures
            r@ == self@,
    {
        let r = Artifact {
            identity: self.identity.clone(),
            content_hash: self.content_hash.clone(),
            size: self.size,
            references: clone_identities(&self.references),
        };
        proof {
            assert(r@.references =~= self@.references);
        }
        r
    }
}

/// Copies a list of identity strings, element for element.
fn clone_identities(v: &Vec<String>) -> (r: Vec<String>)
    ensures
        r@.map_values(|s: String| s@) == v@.map_values(|s: String| s@),
{
    let mut r: Vec<String> = Vec::new();
    let mut i: usize = 0;
    while i < v.len()
        invariant
            i <= v@.len(),
            r@.len() == i,
            forall|k: int| 0 <= k < i ==> r@[k]@ == v@[k]@,
        decreases v@.len() - i,
    {
        r.push(v[i].clone());
        i += 1;
    }
    proof {
        assert(r@.map_values(|s: String| s@) =~= v@.map_values(|s: String| s@));
    }
    r
}

} // verus!
