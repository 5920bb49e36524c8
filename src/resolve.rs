//! Resolution of local cards to remote cards: the exact title first, the
//! closest title otherwise, and the image of each face.

use vstd::prelude::*;
use vstd::string::{StrSliceExecFns, StringExecFns};

use crate::distance::{
    first_min_index, is_closest, is_first_min, lemma_closest_exists, lemma_closest_unique,
    levenshtein,
};
use crate::hall_of_beorn::Card as HobCard;
use crate::octgn::Card as OctgnCard;
use crate::parallel::par_map;

verus! {

/// The list of remote candidates was empty, so nothing could be matched.
#[derive(Debug, PartialEq, Eq, Structural)]
pub struct EmptyCandidateSet;

/// What the image-fetching stage needs to know of one local card.
pub struct CardDownload {
    pub id: String,
    pub front_url: String,
    pub back_url: Option<String>,
}

/// A local name that had no exact remote title, and the remote title used
/// in its place.
pub struct Substitution {
    pub name: String,
    pub title: String,
}

/// The download of one local card, and the substitutions made to find it.
pub struct CardResolution {
    pub download: CardDownload,
    pub substitutions: Vec<Substitution>,
}

/// The downloads of a list of local cards, in the same order, and every
/// substitution made on the way, in the order in which it was made.
pub struct ImagePlan {
    pub downloads: Vec<CardDownload>,
    pub substitutions: Vec<Substitution>,
}

pub open spec fn titles(cards: Seq<HobCard>) -> Seq<Seq<char>> {
    cards.map_values(|c: HobCard| c.title@)
}

/// `i` is the last position that carries exactly `name`.
pub open spec fn is_last_exact(names: Seq<Seq<char>>, name: Seq<char>, i: int) -> bool {
    &&& 0 <= i < names.len()
    &&& names[i] == name
    &&& forall|j: int| i < j < names.len() ==> names[j] != name
}

/// `name` resolves to position `i`: the last exact occurrence where there is
/// one, the first closest name otherwise.
pub open spec fn resolves_to(names: Seq<Seq<char>>, name: Seq<char>, i: int) -> bool {
    if names.contains(name) {
        is_last_exact(names, name, i)
    } else {
        is_closest(name, names, i)
    }
}

pub open spec fn resolved_index(names: Seq<Seq<char>>, name: Seq<char>) -> int {
    choose|i: int| resolves_to(names, name, i)
}

/// The image of the remote card that `name` resolves to.
pub open spec fn front_url(cards: Seq<HobCard>, name: Seq<char>) -> Seq<char> {
    cards[resolved_index(titles(cards), name)].front.image_path@
}

/// `s` ends with `suffix`.
pub open spec fn ends_with(s: Seq<char>, suffix: Seq<char>) -> bool {
    suffix.len() <= s.len() && s.subrange(s.len() - suffix.len(), s.len() as int) == suffix
}

/// The locator of the back face of a card whose front locator is `front`:
/// its front-face suffix "A.jpg" becomes the back-face suffix "B.jpg". A
/// locator without that suffix is kept as it is.
pub open spec fn flip_face(front: Seq<char>) -> Seq<char> {
    if ends_with(front, "A.jpg"@) {
        front.subrange(0, front.len() - "A.jpg"@.len()) + "B.jpg"@
    } else {
        front
    }
}

/// The image of the second face: the front image with its face suffix
/// flipped when the card repeats its own name, else the image of the card
/// that the second name resolves to.
pub open spec fn back_url(cards: Seq<HobCard>, card: OctgnCard) -> Option<Seq<char>> {
    match card.back_name {
        None => None,
        Some(back) => if back@ == card.name@ {
            Some(flip_face(front_url(cards, card.name@)))
        } else {
            Some(front_url(cards, back@))
        },
    }
}

pub open spec fn opt_view(o: Option<String>) -> Option<Seq<char>> {
    match o {
        Some(s) => Some(s@),
        None => None,
    }
}

pub open spec fn is_download_for(d: CardDownload, cards: Seq<HobCard>, card: OctgnCard) -> bool {
    &&& d.id@ == card.id@
    &&& d.front_url@ == front_url(cards, card.name@)
    &&& opt_view(d.back_url) == back_url(cards, card)
}

pub open spec fn subs_view(s: Seq<Substitution>) -> Seq<(Seq<char>, Seq<char>)> {
    s.map_values(|x: Substitution| (x.name@, x.title@))
}

/// The substitution made when `name` has no exact title, if any.
pub open spec fn substitution_for(cards: Seq<HobCard>, name: Seq<char>) -> Seq<
    (Seq<char>, Seq<char>),
> {
    if titles(cards).contains(name) {
        seq![]
    } else {
        seq![(name, titles(cards)[resolved_index(titles(cards), name)])]
    }
}

/// The substitutions made for one local card: its name, then the distinct
/// name of its second face.
pub open spec fn card_substitutions(cards: Seq<HobCard>, card: OctgnCard) -> Seq<
    (Seq<char>, Seq<char>),
> {
    substitution_for(cards, card.name@) + match card.back_name {
        Some(back) => if back@ == card.name@ {
            seq![]
        } else {
            substitution_for(cards, back@)
        },
        None => seq![],
    }
}

pub open spec fn all_substitutions(cards: Seq<HobCard>, locals: Seq<OctgnCard>) -> Seq<
    (Seq<char>, Seq<char>),
>
    decreases locals.len(),
{
    if locals.len() == 0 {
        seq![]
    } else {
        all_substitutions(cards, locals.drop_last()) + card_substitutions(cards, locals.last())
    }
}

/// `plan` holds, in order, the download of each local card and the
/// substitutions made for them.
pub open spec fn is_plan_for(plan: ImagePlan, cards: Seq<HobCard>, locals: Seq<OctgnCard>) -> bool {
    &&& plan.downloads@.len() == locals.len()
    &&& forall|k: int|
        0 <= k < locals.len() ==> is_download_for(#[trigger] plan.downloads@[k], cards, locals[k])
    &&& subs_view(plan.substitutions@) == all_substitutions(cards, locals)
}

pub proof fn lemma_resolves_to_unique(names: Seq<Seq<char>>, name: Seq<char>, i: int, j: int)
    requires
        resolves_to(names, name, i),
        resolves_to(names, name, j),
    ensures
        i == j,
{
    if !names.contains(name) {
        lemma_closest_unique(name, names, i, j);
    }
}

proof fn lemma_last_exact_exists(names: Seq<Seq<char>>, name: Seq<char>)
    requires
        names.contains(name),
    ensures
        exists|i: int| is_last_exact(names, name, i),
    decreases names.len(),
{
    let last = names.len() - 1;
    if names[last] == name {
        assert(is_last_exact(names, name, last));
    } else {
        let prefix = names.drop_last();
        let w = choose|w: int| 0 <= w < names.len() && names[w] == name;
        assert(prefix[w] == name);
        lemma_last_exact_exists(prefix, name);
        let i = choose|i: int| is_last_exact(prefix, name, i);
        assert(is_last_exact(names, name, i)) by {
            assert forall|j: int| i < j < names.len() implies names[j] != name by {
                if j < last {
                    assert(names[j] == prefix[j]);
                }
            }
        }
    }
}

/// Over a non-empty list of titles, every name resolves to exactly one
/// position.
pub proof fn lemma_resolvable(names: Seq<Seq<char>>, name: Seq<char>)
    requires
        names.len() > 0,
    ensures
        resolves_to(names, name, resolved_index(names, name)),
        0 <= resolved_index(names, name) < names.len(),
{
    if names.contains(name) {
        lemma_last_exact_exists(names, name);
        let i = choose|i: int| is_last_exact(names, name, i);
        assert(resolves_to(names, name, i));
    } else {
        lemma_closest_exists(name, names);
        let i = choose|i: int| is_closest(name, names, i);
        assert(resolves_to(names, name, i));
    }
}

proof fn lemma_resolved_index_is(names: Seq<Seq<char>>, name: Seq<char>, i: int)
    requires
        resolves_to(names, name, i),
    ensures
        resolved_index(names, name) == i,
{
    lemma_resolves_to_unique(names, name, i, resolved_index(names, name));
}

/// The back-face locator for a front-face locator.
pub fn flip_face_marker(front: &str) -> (r: String)
    ensures
        r@ == flip_face(front@),
{
    proof {
        reveal_strlit("A.jpg");
        reveal_strlit("B.jpg");
    }
    let n = front.unicode_len();
    if n >= 5 {
        let suffix = front.substring_char(n - 5, n).to_owned();
        if suffix == "A.jpg".to_owned() {
            let stem = front.substring_char(0, n - 5);
            return String::from_str(stem).concat("B.jpg");
        }
    }
    front.to_owned()
}

/// The last remote card whose title is exactly `name`.
fn find_title(hob_cards: &Vec<HobCard>, name: &String) -> (r: Option<usize>)
    ensures
        r is None <==> !titles(hob_cards@).contains(name@),
        r matches Some(i) ==> is_last_exact(titles(hob_cards@), name@, i as int),
{
    let ghost names = titles(hob_cards@);
    let mut k: usize = hob_cards.len();
    while k > 0
        invariant
            k <= hob_cards@.len(),
            names == titles(hob_cards@),
            forall|j: int| k <= j < names.len() ==> names[j] != name@,
        decreases k,
    {
        if hob_cards[k - 1].title == *name {
            proof {
                assert(names[k - 1] == hob_cards@[k - 1].title@);
            }
            return Some(k - 1);
        }
        k = k - 1;
    }
    proof {
        if names.contains(name@) {
            let w = choose|w: int| 0 <= w < names.len() && names[w] == name@;
            assert(names[w] != name@);
        }
    }
    None
}

/// The first remote card whose title is closest to `unknown_card_name`.
pub fn guess_hob_card(hob_cards: &Vec<HobCard>, unknown_card_name: &str) -> (r: Result<
    usize,
    EmptyCandidateSet,
>)
    ensures
        r is Err <==> hob_cards@.len() == 0,
        r matches Ok(i) ==> is_closest(unknown_card_name@, titles(hob_cards@), i as int),
{
    let distance_to = |hob_card: &HobCard| -> (d: usize)
        ensures
            d as nat == crate::distance::edit_distance(unknown_card_name@, hob_card.title@),
        {
            levenshtein(unknown_card_name, hob_card.title.as_str())
        };
    let distances = par_map(hob_cards, distance_to);
    match first_min_index(&distances) {
        None => Err(EmptyCandidateSet),
        Some(i) => {
            proof {
                let names = titles(hob_cards@);
                assert forall|j: int| 0 <= j < names.len() implies distances@[j] as nat
                    == crate::distance::edit_distance(unknown_card_name@, #[trigger] names[j]) by {
                    assert(names[j] == hob_cards@[j].title@);
                }
                assert(is_first_min(distances@, i as int));
            }
            Ok(i)
        },
    }
}

/// The remote card for a local name: the last card titled exactly so, else
/// the closest title, recorded as a substitution.
pub fn octgn_to_hob(
    octgn_card_name: &String,
    hob_cards: &Vec<HobCard>,
    substitutions: &mut Vec<Substitution>,
) -> (r: usize)
    requires
        hob_cards@.len() > 0,
    ensures
        r < hob_cards@.len(),
        r as int == resolved_index(titles(hob_cards@), octgn_card_name@),
        subs_view(final(substitutions)@) == subs_view(old(substitutions)@) + substitution_for(
            hob_cards@,
            octgn_card_name@,
        ),
{
    let ghost names = titles(hob_cards@);
    match find_title(hob_cards, octgn_card_name) {
        Some(i) => {
            proof {
                lemma_resolved_index_is(names, octgn_card_name@, i as int);
                assert(subs_view(substitutions@) + seq![] =~= subs_view(substitutions@));
            }
            i
        },
        None => {
            let i = match guess_hob_card(hob_cards, octgn_card_name.as_str()) {
                Ok(i) => i,
                Err(_) => 0,
            };
            proof {
                lemma_resolved_index_is(names, octgn_card_name@, i as int);
            }
            let ghost before = substitutions@;
            substitutions.push(
                Substitution { name: octgn_card_name.clone(), title: hob_cards[i].title.clone() },
            );
            proof {
                assert(names[i as int] == hob_cards@[i as int].title@);
                assert(subs_view(substitutions@) =~= subs_view(before) + substitution_for(
                    hob_cards@,
                    octgn_card_name@,
                ));
            }
            i
        },
    }
}

/// Resolves both faces of one local card.
pub fn resolve_card(octgn_card: &OctgnCard, hob_cards: &Vec<HobCard>) -> (r: CardResolution)
    requires
        hob_cards@.len() > 0,
    ensures
        is_download_for(r.download, hob_cards@, *octgn_card),
        subs_view(r.substitutions@) == card_substitutions(hob_cards@, *octgn_card),
{
    let mut substitutions: Vec<Substitution> = Vec::new();
    let front = octgn_to_hob(&octgn_card.name, hob_cards, &mut substitutions);
    let ghost after_front = substitutions@;
    let back_url = match &octgn_card.back_name {
        None => None,
        Some(back_name) => {
            if *back_name == octgn_card.name {
                Some(flip_face_marker(hob_cards[front].front.image_path.as_str()))
            } else {
                let back = octgn_to_hob(back_name, hob_cards, &mut substitutions);
                Some(hob_cards[back].front.image_path.clone())
            }
        },
    };
    proof {
        assert(subs_view(substitutions@) =~= card_substitutions(hob_cards@, *octgn_card));
    }
    CardResolution {
        download: CardDownload {
            id: octgn_card.id.clone(),
            front_url: hob_cards[front].front.image_path.clone(),
            back_url,
        },
        substitutions,
    }
}

/// Resolves every local card against the remote cards of its set. Fails
/// only when there is no remote card at all.
pub fn get_image_urls(octgn_cards: &Vec<OctgnCard>, hob_cards: &Vec<HobCard>) -> (r: Result<
    ImagePlan,
    EmptyCandidateSet,
>)
    ensures
        r is Err <==> hob_cards@.len() == 0,
        r matches Ok(plan) ==> is_plan_for(plan, hob_cards@, octgn_cards@),
{
    if hob_cards.len() == 0 {
        return Err(EmptyCandidateSet);
    }
    let resolve = |octgn_card: &OctgnCard| -> (r: CardResolution)
        requires
            hob_cards@.len() > 0,
        ensures
            is_download_for(r.download, hob_cards@, *octgn_card),
            subs_view(r.substitutions@) == card_substitutions(hob_cards@, *octgn_card),
        {
            resolve_card(octgn_card, hob_cards)
        };
    let mut results = par_map(octgn_cards, resolve);
    let ghost all = results@;
    let ghost locals = octgn_cards@;
    let mut downloads: Vec<CardDownload> = Vec::new();
    let mut substitutions: Vec<Substitution> = Vec::new();
    let n: usize = octgn_cards.len();
    let mut k: usize = 0;
    while results.len() > 0
        invariant
            locals == octgn_cards@,
            n == locals.len(),
            all.len() == locals.len(),
            k <= all.len(),
            results@ == all.skip(k as int),
            forall|i: int|
                0 <= i < all.len() ==> is_download_for(#[trigger] all[i].download, hob_cards@, locals[i]),
            forall|i: int|
                0 <= i < all.len() ==> subs_view(#[trigger] all[i].substitutions@)
                    == card_substitutions(hob_cards@, locals[i]),
            downloads@.len() == k,
            forall|i: int|
                0 <= i < k ==> is_download_for(#[trigger] downloads@[i], hob_cards@, locals[i]),
            subs_view(substitutions@) == all_substitutions(hob_cards@, locals.take(k as int)),
        decreases results.len(),
    {
        assert(k < all.len());
        let CardResolution { download, substitutions: mut found } = results.remove(0);
        proof {
            assert(all.skip(k as int)[0] == all[k as int]);
            assert(all.skip(k as int).remove(0) =~= all.skip(k + 1));
            assert(locals.take(k + 1).drop_last() =~= locals.take(k as int));
        }
        let ghost before = substitutions@;
        downloads.push(download);
        substitutions.append(&mut found);
        proof {
            assert(subs_view(substitutions@) =~= subs_view(before) + subs_view(all[k as int].substitutions@));
        }
        k = k + 1;
    }
    proof {
        assert(locals.take(k as int) =~= locals);
    }
    Ok(ImagePlan { downloads, substitutions })
}

pub open spec fn download_view(d: CardDownload) -> (Seq<char>, Seq<char>, Option<Seq<char>>) {
    (d.id@, d.front_url@, opt_view(d.back_url))
}

/// A name that a remote card carries verbatim resolves to a card with
/// exactly that title, whatever other titles lie close to it.
pub proof fn lemma_exact_title_wins(cards: Seq<HobCard>, name: Seq<char>, j: int)
    requires
        0 <= j < cards.len(),
        cards[j].title@ == name,
    ensures
        cards[resolved_index(titles(cards), name)].title@ == name,
        front_url(cards, name) == cards[resolved_index(titles(cards), name)].front.image_path@,
{
    let names = titles(cards);
    assert(names[j] == name);
    lemma_resolvable(names, name);
    let i = resolved_index(names, name);
    assert(names[i] == cards[i].title@);
}

/// A card whose second face repeats its own name gets, as second image, the
/// front image with its face suffix flipped: never the front image itself.
pub proof fn lemma_self_named_back_differs(cards: Seq<HobCard>, card: OctgnCard)
    requires
        card.back_name matches Some(back) && back@ == card.name@,
        ends_with(front_url(cards, card.name@), "A.jpg"@),
    ensures
        back_url(cards, card) == Some(flip_face(front_url(cards, card.name@))),
        back_url(cards, card) != Some(front_url(cards, card.name@)),
{
    reveal_strlit("A.jpg");
    reveal_strlit("B.jpg");
    let front = front_url(cards, card.name@);
    let back = flip_face(front);
    let k = front.len() - 5;
    assert(front[k] == front.subrange(k, front.len() as int)[0]);
    assert(back[k] == 'B');
}

/// A card whose second face has a name of its own gets, as second image, the
/// front image of the remote card that this name resolves to.
pub proof fn lemma_distinct_back_resolved(cards: Seq<HobCard>, card: OctgnCard)
    requires
        card.back_name matches Some(back) && back@ != card.name@,
    ensures
        back_url(cards, card) == Some(front_url(cards, card.back_name->Some_0@)),
{
}

/// Two plans for the same local and remote cards are equal: same downloads
/// in the same order, same substitutions.
pub proof fn lemma_plan_deterministic(
    cards: Seq<HobCard>,
    locals: Seq<OctgnCard>,
    first: ImagePlan,
    second: ImagePlan,
)
    requires
        is_plan_for(first, cards, locals),
        is_plan_for(second, cards, locals),
    ensures
        first.downloads@.map_values(|d: CardDownload| download_view(d)) == second.downloads@.map_values(
            |d: CardDownload| download_view(d),
        ),
        subs_view(first.substitutions@) == subs_view(second.substitutions@),
{
    let a = first.downloads@.map_values(|d: CardDownload| download_view(d));
    let b = second.downloads@.map_values(|d: CardDownload| download_view(d));
    assert forall|k: int| 0 <= k < a.len() implies a[k] == b[k] by {
        assert(is_download_for(first.downloads@[k], cards, locals[k]));
        assert(is_download_for(second.downloads@[k], cards, locals[k]));
    }
    assert(a =~= b);
}

} // verus!
