//! The tag tables mirror the tags in the texts of the thoughts.

use vstd::prelude::*;

use crate::order::same_name;
use crate::rows::{
    any_where, kept, law_first_where, law_kept_all, law_kept_contains, law_kept_pairwise, pairwise,
};
use crate::tables::{
    linked, links_besides, stored_name, swept, with_link, with_tag, LinkRowView, TablesView,
};
use crate::tags::tag_list;

verus! {

/// The tables with the tag `name` on the thought.
pub open spec fn with_tag_on(t: TablesView, id: Seq<u8>, name: Seq<char>) -> TablesView {
    let tags = with_tag(t.tags, name);
    TablesView { tags, links: with_link(t.links, tags, id, name), ..t }
}

/// The tables with the tags `names` on the thought, the first one added first.
pub open spec fn with_tags_on(t: TablesView, id: Seq<u8>, names: Seq<Seq<char>>) -> TablesView
    decreases names.len(),
{
    if names.len() == 0 {
        t
    } else {
        with_tag_on(with_tags_on(t, id, names.drop_last()), id, names.last())
    }
}

/// The tables with exactly the tags of `text` on the thought: those it had go,
/// those in the text come, and tags that no thought carries any more go.
pub open spec fn reconciled(t: TablesView, id: Seq<u8>, text: Seq<char>) -> TablesView {
    let cleared = TablesView { links: links_besides(t.links, id), ..t };
    let tagged = with_tags_on(cleared, id, tag_list(text));
    TablesView { tags: swept(tagged.tags, tagged.links), ..tagged }
}

// ---- what the mirror shows -------------------------------------------------

/// The thought carries a tag of that name, up to ASCII case.
pub open spec fn carries(links: Seq<LinkRowView>, id: Seq<u8>, name: Seq<char>) -> bool {
    exists|i: int|
        0 <= i < links.len() && (#[trigger] links[i]).thought_id == id && same_name(
            links[i].name,
            name,
        )
}

/// Some name of the list is this one, up to ASCII case.
pub open spec fn lists(names: Seq<Seq<char>>, name: Seq<char>) -> bool {
    exists|i: int| 0 <= i < names.len() && same_name(name, #[trigger] names[i])
}

/// The thought carries the tags `names` and no others.
pub open spec fn mirrors(links: Seq<LinkRowView>, id: Seq<u8>, names: Seq<Seq<char>>) -> bool {
    &&& forall|i: int| 0 <= i < names.len() ==> carries(links, id, #[trigger] names[i])
    &&& forall|i: int|
        0 <= i < links.len() && (#[trigger] links[i]).thought_id == id ==> lists(
            names,
            links[i].name,
        )
}

/// No two tags have the same name, every link points to a tag, and no link is
/// there twice.
pub open spec fn tags_consistent(t: TablesView) -> bool {
    &&& pairwise(t.tags, |a: Seq<char>, b: Seq<char>| !same_name(a, b))
    &&& forall|i: int| 0 <= i < t.links.len() ==> t.tags.contains((#[trigger] t.links[i]).name)
    &&& pairwise(t.links, |a: LinkRowView, b: LinkRowView| a != b)
}

/// Some thought carries each tag.
pub open spec fn tags_in_use(t: TablesView) -> bool {
    forall|i: int| 0 <= i < t.tags.len() ==> linked(t.links, #[trigger] t.tags[i])
}

proof fn lemma_with_tag(tags: Seq<Seq<char>>, name: Seq<char>)
    requires
        pairwise(tags, |a: Seq<char>, b: Seq<char>| !same_name(a, b)),
    ensures
        pairwise(with_tag(tags, name), |a: Seq<char>, b: Seq<char>| !same_name(a, b)),
        stored_name(with_tag(tags, name), name) matches Some(s) && same_name(s, name)
            && with_tag(tags, name).contains(s),
        forall|n: Seq<char>| tags.contains(n) ==> #[trigger] with_tag(tags, name).contains(n),
{
    let p = |n: Seq<char>| same_name(n, name);
    let after = with_tag(tags, name);
    law_first_where(tags, p);
    law_first_where(after, p);
    if stored_name(tags, name) is None {
        assert(after[after.len() - 1] == name);
        assert(p(after[after.len() - 1]));
        assert(any_where(after, p));
        assert forall|n: Seq<char>| tags.contains(n) implies #[trigger] after.contains(n) by {
            let i = choose|i: int| 0 <= i < tags.len() && tags[i] == n;
            assert(after[i] == n);
        }
        let r = |a: Seq<char>, b: Seq<char>| !same_name(a, b);
        assert forall|i: int, j: int| 0 <= i < j < after.len() implies r(
            #[trigger] after[i],
            #[trigger] after[j],
        ) by {
            if j < tags.len() {
                assert(r(tags[i], tags[j]));
            } else {
                assert(!p(tags[i]));
            }
        }
    }
}

proof fn lemma_with_tag_on(t: TablesView, id: Seq<u8>, name: Seq<char>)
    requires
        tags_consistent(t),
    ensures
        tags_consistent(with_tag_on(t, id, name)),
        carries(with_tag_on(t, id, name).links, id, name),
        t.links.is_prefix_of(with_tag_on(t, id, name).links),
        forall|i: int|
            t.links.len() <= i < with_tag_on(t, id, name).links.len() ==> {
                let l = #[trigger] with_tag_on(t, id, name).links[i];
                l.thought_id == id && same_name(l.name, name)
            },
{
    lemma_with_tag(t.tags, name);
    let after = with_tag_on(t, id, name);
    let stored = stored_name(after.tags, name).unwrap();
    let link = LinkRowView { thought_id: id, name: stored };
    if t.links.contains(link) {
        let i = choose|i: int| 0 <= i < t.links.len() && t.links[i] == link;
        assert(after.links[i] == link);
    } else {
        assert(after.links[after.links.len() - 1] == link);
        let r = |a: LinkRowView, b: LinkRowView| a != b;
        assert forall|i: int, j: int| 0 <= i < j < after.links.len() implies r(
            #[trigger] after.links[i],
            #[trigger] after.links[j],
        ) by {
            if j < t.links.len() {
                assert(r(t.links[i], t.links[j]));
            } else {
                assert(t.links[i] != link);
            }
        }
    }
    assert forall|i: int| 0 <= i < after.links.len() implies after.tags.contains(
        (#[trigger] after.links[i]).name,
    ) by {
        if i < t.links.len() {
            assert(t.tags.contains(t.links[i].name));
        }
    }
}

proof fn lemma_with_tags_on(t: TablesView, id: Seq<u8>, names: Seq<Seq<char>>)
    requires
        tags_consistent(t),
    ensures
        tags_consistent(with_tags_on(t, id, names)),
        forall|i: int|
            0 <= i < names.len() ==> carries(
                with_tags_on(t, id, names).links,
                id,
                #[trigger] names[i],
            ),
        t.links.is_prefix_of(with_tags_on(t, id, names).links),
        forall|i: int|
            t.links.len() <= i < with_tags_on(t, id, names).links.len() ==> {
                let l = #[trigger] with_tags_on(t, id, names).links[i];
                l.thought_id == id && lists(names, l.name)
            },
        with_tags_on(t, id, names) == (TablesView {
            tags: with_tags_on(t, id, names).tags,
            links: with_tags_on(t, id, names).links,
            ..t
        }),
    decreases names.len(),
{
    if names.len() > 0 {
        let front = names.drop_last();
        lemma_with_tags_on(t, id, front);
        let u = with_tags_on(t, id, front);
        let after = with_tags_on(t, id, names);
        lemma_with_tag_on(u, id, names.last());
        assert forall|i: int| 0 <= i < names.len() implies carries(
            after.links,
            id,
            #[trigger] names[i],
        ) by {
            if i < front.len() {
                assert(carries(u.links, id, front[i]));
                let k = choose|k: int|
                    0 <= k < u.links.len() && (#[trigger] u.links[k]).thought_id == id
                        && same_name(u.links[k].name, front[i]);
                assert(after.links[k] == u.links[k]);
            }
        }
        assert forall|i: int| t.links.len() <= i < after.links.len() implies ({
            let l = #[trigger] after.links[i];
            l.thought_id == id && lists(names, l.name)
        }) by {
            if i < u.links.len() {
                assert(after.links[i] == u.links[i]);
                let k = choose|k: int|
                    0 <= k < front.len() && same_name(u.links[i].name, #[trigger] front[k]);
                assert(names[k] == front[k]);
            } else {
                assert(names[names.len() - 1] == names.last());
            }
        }
    }
}

proof fn lemma_kept_push<V>(rows: Seq<V>, p: spec_fn(V) -> bool, extra: Seq<V>)
    requires
        forall|i: int| 0 <= i < extra.len() ==> !p(#[trigger] extra[i]),
    ensures
        kept(rows + extra, p) == kept(rows, p),
    decreases extra.len(),
{
    if extra.len() == 0 {
        assert(rows + extra =~= rows);
    } else {
        assert((rows + extra).drop_last() =~= rows + extra.drop_last());
        assert forall|i: int| 0 <= i < extra.drop_last().len() implies !p(
            #[trigger] extra.drop_last()[i],
        ) by {
            assert(!p(extra[i]));
        }
        assert(!p(extra[extra.len() - 1]));
        lemma_kept_push(rows, p, extra.drop_last());
    }
}

proof fn lemma_kept_twice<V>(rows: Seq<V>, p: spec_fn(V) -> bool)
    ensures
        kept(kept(rows, p), p) == kept(rows, p),
    decreases rows.len(),
{
    if rows.len() > 0 {
        lemma_kept_twice(rows.drop_last(), p);
        if p(rows.last()) {
            let k = kept(rows.drop_last(), p);
            assert(k.push(rows.last()).drop_last() =~= k);
        }
    }
}

/// Reconciling leaves the thought with exactly the tags of the text, every
/// other thought with the tags it had, the tag tables consistent, and no tag
/// that no thought carries.
pub proof fn law_reconciled(t: TablesView, id: Seq<u8>, text: Seq<char>)
    requires
        tags_consistent(t),
    ensures
        tags_consistent(reconciled(t, id, text)),
        tags_in_use(reconciled(t, id, text)),
        mirrors(reconciled(t, id, text).links, id, tag_list(text)),
        links_besides(reconciled(t, id, text).links, id) == links_besides(t.links, id),
        reconciled(t, id, text) == (TablesView {
            tags: reconciled(t, id, text).tags,
            links: reconciled(t, id, text).links,
            ..t
        }),
{
    let other = |l: LinkRowView| l.thought_id != id;
    let cleared = TablesView { links: links_besides(t.links, id), ..t };
    let names = tag_list(text);
    let tagged = with_tags_on(cleared, id, names);
    let after = reconciled(t, id, text);
    law_kept_all(t.links, other);
    law_kept_pairwise(t.links, other, |a: LinkRowView, b: LinkRowView| a != b);
    assert forall|i: int| 0 <= i < cleared.links.len() implies cleared.tags.contains(
        (#[trigger] cleared.links[i]).name,
    ) by {
        let k = choose|k: int| 0 <= k < t.links.len() && t.links[k] == cleared.links[i];
        assert(t.tags.contains(t.links[k].name));
    }
    assert(tags_consistent(cleared));
    lemma_with_tags_on(cleared, id, names);
    let used = |n: Seq<char>| linked(tagged.links, n);
    law_kept_pairwise(tagged.tags, used, |a: Seq<char>, b: Seq<char>| !same_name(a, b));
    law_kept_all(tagged.tags, used);
    assert forall|i: int| 0 <= i < after.links.len() implies after.tags.contains(
        (#[trigger] after.links[i]).name,
    ) by {
        let name = after.links[i].name;
        assert(tagged.tags.contains(name));
        let p = |l: LinkRowView| l.name == name;
        assert(p(after.links[i]));
        assert(linked(tagged.links, name));
        law_kept_contains(tagged.tags, used, name);
    }
    assert forall|i: int| 0 <= i < after.tags.len() implies linked(
        after.links,
        #[trigger] after.tags[i],
    ) by {
        assert(used(after.tags[i]));
    }
    assert forall|i: int|
        0 <= i < after.links.len() && (#[trigger] after.links[i]).thought_id == id implies lists(
        names,
        after.links[i].name,
    ) by {
        if i < cleared.links.len() {
            assert(after.links[i] == cleared.links[i]);
            assert(other(cleared.links[i]));
        }
    }
    let extra = after.links.skip(cleared.links.len() as int);
    assert(after.links =~= cleared.links + extra);
    assert forall|i: int| 0 <= i < extra.len() implies !other(#[trigger] extra[i]) by {
        assert(extra[i] == after.links[cleared.links.len() + i]);
    }
    lemma_kept_push(cleared.links, other, extra);
    lemma_kept_twice(t.links, other);
}

/// Reconciling touches the tag tables alone.
pub(crate) proof fn lemma_reconciled_rows(t: TablesView, id: Seq<u8>, text: Seq<char>)
    ensures
        reconciled(t, id, text) == (TablesView {
            tags: reconciled(t, id, text).tags,
            links: reconciled(t, id, text).links,
            ..t
        }),
{
    lemma_with_tags_rows(
        TablesView { links: links_besides(t.links, id), ..t },
        id,
        tag_list(text),
    );
}

proof fn lemma_with_tags_rows(t: TablesView, id: Seq<u8>, names: Seq<Seq<char>>)
    ensures
        with_tags_on(t, id, names) == (TablesView {
            tags: with_tags_on(t, id, names).tags,
            links: with_tags_on(t, id, names).links,
            ..t
        }),
    decreases names.len(),
{
    if names.len() > 0 {
        lemma_with_tags_rows(t, id, names.drop_last());
    }
}

/// Where two thoughts' links agree, so do the tags they carry.
pub(crate) proof fn lemma_mirrors_besides(
    a: Seq<LinkRowView>,
    b: Seq<LinkRowView>,
    id: Seq<u8>,
    other: Seq<u8>,
    names: Seq<Seq<char>>,
)
    requires
        links_besides(a, id) == links_besides(b, id),
        other != id,
        mirrors(a, other, names),
    ensures
        mirrors(b, other, names),
{
    let p = |l: LinkRowView| l.thought_id != id;
    assert forall|i: int| 0 <= i < names.len() implies carries(b, other, #[trigger] names[i]) by {
        assert(carries(a, other, names[i]));
        let k = choose|k: int|
            0 <= k < a.len() && (#[trigger] a[k]).thought_id == other && same_name(
                a[k].name,
                names[i],
            );
        law_kept_contains(a, p, a[k]);
        law_kept_contains(b, p, a[k]);
        let m = choose|m: int| 0 <= m < b.len() && b[m] == a[k];
        assert(b[m].thought_id == other);
    }
    assert forall|i: int| 0 <= i < b.len() && (#[trigger] b[i]).thought_id == other implies lists(
        names,
        b[i].name,
    ) by {
        law_kept_contains(b, p, b[i]);
        law_kept_contains(a, p, b[i]);
        let k = choose|k: int| 0 <= k < a.len() && a[k] == b[i];
        assert(a[k].thought_id == other);
    }
}

} // verus!
