//! How the values of a scene are laid out in a stream, written and read back.
//!
//! For each kind of value there are four things here: the tokens that stand
//! for a value (`.._tokens`), the function that writes them (`save`), what
//! reading at a place gives (`.._at`), and the function that reads (`load`).
//! A last one proves that reading what was written gives the value back.

use crate::base::{Base, BaseBuilder, BaseView, ResourceId};
use crate::handle::Handle;
use crate::lod::{objects_acceptable, LevelOfDetail, LevelOfDetailView, LodGroup, LodGroupView};
use crate::node::Node;
use crate::stream::{
    bool_at, content, enter_at, failure, handle_at, i64_at, leave_at, put, read_bool, read_enter,
    read_handle, read_i64, read_leave, read_text, read_u32, read_u64, text_at, u32_at, u64_at,
    DecodeError, DecodeErrorKind, Key, Token, TokenView, Value, ValueView,
};
use crate::transform::{Matrix4, Quaternion, Transform, Vector3};
use crate::units::{clamp_unit, greater, lesser, magnitude};
use vstd::prelude::*;

verus! {

/// The token of one item of a list of handles.
pub open spec fn item_token(h: Handle) -> TokenView {
    TokenView::Field(Key::Item, ValueView::Handle(h))
}

/// The tokens of a list of handles in a region of name `key`: the length,
/// then one item for each handle.
#[verifier::opaque]
pub open spec fn handles_tokens(list: Seq<Handle>, key: Key) -> Seq<TokenView> {
    seq![
        TokenView::Enter(key),
        TokenView::Field(Key::Length, ValueView::U64(list.len() as u64)),
    ] + list.map_values(|h: Handle| item_token(h)) + seq![TokenView::Leave]
}

/// What reading `count` items from place `at` on gives.
pub open spec fn items_at(s: Seq<TokenView>, at: int, count: nat) -> Result<Seq<Handle>, DecodeError>
    decreases count,
{
    if count == 0 {
        Ok(Seq::empty())
    } else {
        match items_at(s, at, (count - 1) as nat) {
            Err(e) => Err(e),
            Ok(front) => match handle_at(s, at + count - 1, Key::Item) {
                Err(e) => Err(e),
                Ok(h) => Ok(front.push(h)),
            },
        }
    }
}

/// What reading a list of handles in a region of name `key` at place `at`
/// gives: the list, and the place after the region.
#[verifier::opaque]
pub open spec fn handles_at(s: Seq<TokenView>, at: int, key: Key) -> Result<
    (Seq<Handle>, int),
    DecodeError,
> {
    match enter_at(s, at, key) {
        Err(e) => Err(e),
        Ok(_) => match u64_at(s, at + 1, Key::Length) {
            Err(e) => Err(e),
            Ok(count) => match items_at(s, at + 2, count as nat) {
                Err(e) => Err(e),
                Ok(list) => match leave_at(s, at + 2 + count) {
                    Err(e) => Err(e),
                    Ok(_) => Ok((list, at + 3 + count)),
                },
            },
        },
    }
}

/// Writes a list of handles in a region of name `key`.
pub fn save_handles(list: &[Handle], key: Key, out: &mut Vec<Token>)
    ensures
        content(final(out)@) == content(old(out)@) + handles_tokens(list@, key),
{
    proof {
        reveal(handles_tokens);
    }
    let ghost start = content(out@);
    put(out, Token::Enter(key));
    put(out, Token::Field(Key::Length, Value::U64(list.len() as u64)));
    let ghost head = content(out@);
    let mut i: usize = 0;
    while i < list.len()
        invariant
            i <= list.len(),
            content(out@) == head + list@.take(i as int).map_values(|h: Handle| item_token(h)),
        decreases list.len() - i,
    {
        put(out, Token::Field(Key::Item, Value::Handle(list[i])));
        assert(list@.take(i + 1).map_values(|h: Handle| item_token(h)) =~= list@.take(
            i as int,
        ).map_values(|h: Handle| item_token(h)).push(item_token(list@[i as int])));
        assert(content(out@) =~= head + list@.take(i + 1).map_values(|h: Handle| item_token(h)));
        i = i + 1;
    }
    put(out, Token::Leave);
    assert(list@.take(list@.len() as int) =~= list@);
    assert(content(out@) =~= start + handles_tokens(list@, key));
}

/// Reads a list of handles in a region of name `key` at place `at`, and
/// returns it with the place after the region.
pub fn load_handles(tokens: &Vec<Token>, at: usize, key: Key) -> (r: Result<
    (Vec<Handle>, usize),
    DecodeError,
>)
    ensures
        match r {
            Ok((list, next)) => handles_at(content(tokens@), at as int, key) == Ok::<
                (Seq<Handle>, int),
                DecodeError,
            >((list@, next as int)) && at < next <= tokens@.len(),
            Err(e) => handles_at(content(tokens@), at as int, key) == Err::<
                (Seq<Handle>, int),
                DecodeError,
            >(e),
        },
{
    proof {
        reveal(handles_at);
    }
    let ghost s = content(tokens@);
    let total: usize = tokens.len();
    match read_enter(tokens, at, key) {
        Err(e) => {
            return Err(e);
        },
        Ok(_) => {},
    }
    let count: u64 = match read_u64(tokens, at + 1, Key::Length) {
        Err(e) => {
            return Err(e);
        },
        Ok(count) => count,
    };
    let mut list: Vec<Handle> = Vec::new();
    let mut i: u64 = 0;
    let mut next: usize = at + 2;
    while i < count
        invariant
            i <= count,
            s == content(tokens@),
            next == at + 2 + i,
            next <= tokens@.len(),
            total == tokens@.len(),
            enter_at(s, at as int, key) is Ok,
            u64_at(s, at + 1, Key::Length) == Ok::<u64, DecodeError>(count),
            items_at(s, at + 2, i as nat) == Ok::<Seq<Handle>, DecodeError>(list@),
        decreases count - i,
    {
        match read_handle(tokens, next, Key::Item) {
            Err(e) => {
                proof {
                    reveal(handles_at);
                    items_fail_on(s, at + 2, i as nat, count as nat, e);
                }
                return Err(e);
            },
            Ok(h) => {
                list.push(h);
            },
        }
        i = i + 1;
        next = next + 1;
    }
    match read_leave(tokens, next) {
        Err(e) => Err(e),
        Ok(_) => Ok((list, next + 1)),
    }
}

/// Where reading the item after the first `read` fails, reading any greater
/// number of items fails in the same way.
pub proof fn items_fail_on(s: Seq<TokenView>, at: int, read: nat, count: nat, e: DecodeError)
    requires
        read < count,
        items_at(s, at, read) is Ok,
        handle_at(s, at + read, Key::Item) == Err::<Handle, DecodeError>(e),
    ensures
        items_at(s, at, count) == Err::<Seq<Handle>, DecodeError>(e),
    decreases count,
{
    if count > read + 1 {
        items_fail_on(s, at, read, (count - 1) as nat, e);
    }
}

/// Reading the items that were written gives the list back.
pub proof fn items_round_trip(s: Seq<TokenView>, at: int, list: Seq<Handle>)
    requires
        0 <= at,
        at + list.len() <= s.len(),
        forall|i: int| 0 <= i < list.len() ==> s[at + i] == item_token(#[trigger] list[i]),
    ensures
        items_at(s, at, list.len()) == Ok::<Seq<Handle>, DecodeError>(list),
    decreases list.len(),
{
    if list.len() > 0 {
        let front = list.drop_last();
        assert forall|i: int| 0 <= i < front.len() implies s[at + i] == item_token(
            #[trigger] front[i],
        ) by {
            assert(front[i] == list[i]);
        }
        items_round_trip(s, at, front);
        assert(s[at + (list.len() - 1)] == item_token(list[list.len() - 1]));
        assert(handle_at(s, at + list.len() - 1, Key::Item) == Ok::<Handle, DecodeError>(
            list.last(),
        ));
        assert(front.push(list.last()) =~= list);
        assert((list.len() - 1) as nat == front.len());
    } else {
        assert(list =~= Seq::<Handle>::empty());
    }
}

/// Reading a list of handles that was written gives the list back, and ends
/// where the written tokens end.
pub proof fn handles_round_trip(
    before: Seq<TokenView>,
    list: Seq<Handle>,
    key: Key,
    after: Seq<TokenView>,
)
    requires
        list.len() <= u64::MAX,
    ensures
        handles_at(before + handles_tokens(list, key) + after, before.len() as int, key) == Ok::<
            (Seq<Handle>, int),
            DecodeError,
        >((list, (before.len() + handles_tokens(list, key).len()) as int)),
        handles_tokens(list, key).len() == list.len() + 3,
{
    reveal(handles_tokens);
    reveal(handles_at);
    let written = handles_tokens(list, key);
    let s = before + written + after;
    let at = before.len() as int;
    assert(s[at] == written[0]);
    assert(s[at + 1] == written[1]);
    assert forall|i: int| 0 <= i < list.len() implies s[at + 2 + i] == item_token(
        #[trigger] list[i],
    ) by {
        assert(s[at + 2 + i] == written[2 + i]);
    }
    items_round_trip(s, at + 2, list);
    assert(s[at + 2 + list.len()] == written[2 + list.len() as int]);
}

/// The tokens of a level of detail in a region of name `key`.
#[verifier::opaque]
pub open spec fn level_tokens(level: LevelOfDetailView, key: Key) -> Seq<TokenView> {
    seq![
        TokenView::Enter(key),
        TokenView::Field(Key::Begin, ValueView::I64(level.begin as i64)),
        TokenView::Field(Key::End, ValueView::I64(level.end as i64)),
    ] + handles_tokens(level.objects, Key::Objects) + seq![TokenView::Leave]
}

/// What reading a level of detail in a region of name `key` at place `at`
/// gives: the level, and the place after the region. The bounds are taken as
/// `LevelOfDetail::new` takes them. Objects that are not acceptable make the
/// region invalid.
#[verifier::opaque]
pub open spec fn level_at(s: Seq<TokenView>, at: int, key: Key) -> Result<
    (LevelOfDetailView, int),
    DecodeError,
> {
    match enter_at(s, at, key) {
        Err(e) => Err(e),
        Ok(_) => match i64_at(s, at + 1, Key::Begin) {
            Err(e) => Err(e),
            Ok(begin) => match i64_at(s, at + 2, Key::End) {
                Err(e) => Err(e),
                Ok(end) => match handles_at(s, at + 3, Key::Objects) {
                    Err(e) => Err(e),
                    Ok((objects, next)) => match leave_at(s, next) {
                        Err(e) => Err(e),
                        Ok(_) => if objects_acceptable(objects) {
                            Ok(
                                (
                                    LevelOfDetailView {
                                        begin: lesser(
                                            clamp_unit(begin as int),
                                            clamp_unit(end as int),
                                        ),
                                        end: greater(
                                            clamp_unit(begin as int),
                                            clamp_unit(end as int),
                                        ),
                                        objects,
                                    },
                                    next + 1,
                                ),
                            )
                        } else {
                            Err(failure(at + 3, DecodeErrorKind::InvalidValue))
                        },
                    },
                },
            },
        },
    }
}

impl LevelOfDetail {
    /// Writes the level in a region of name `key`.
    pub fn save(&self, key: Key, out: &mut Vec<Token>)
        ensures
            content(final(out)@) == content(old(out)@) + level_tokens(self@, key),
    {
        proof {
            reveal(level_tokens);
        }
        let ghost start = content(out@);
        put(out, Token::Enter(key));
        put(out, Token::Field(Key::Begin, Value::I64(self.begin())));
        put(out, Token::Field(Key::End, Value::I64(self.end())));
        save_handles(self.objects().as_slice(), Key::Objects, out);
        put(out, Token::Leave);
        assert(content(out@) =~= start + level_tokens(self@, key));
    }

    /// Reads a level in a region of name `key` at place `at`, and returns it
    /// with the place after the region.
    pub fn load(tokens: &Vec<Token>, at: usize, key: Key) -> (r: Result<(Self, usize), DecodeError>)
        ensures
            match r {
                Ok((level, next)) => level_at(content(tokens@), at as int, key) == Ok::<
                    (LevelOfDetailView, int),
                    DecodeError,
                >((level@, next as int)) && at < next <= tokens@.len() && level.wf(),
                Err(e) => level_at(content(tokens@), at as int, key) == Err::<
                    (LevelOfDetailView, int),
                    DecodeError,
                >(e),
            },
    {
        proof {
            reveal(level_at);
        }
        let total: usize = tokens.len();
        match read_enter(tokens, at, key) {
            Err(e) => {
                return Err(e);
            },
            Ok(_) => {},
        }
        let begin: i64 = match read_i64(tokens, at + 1, Key::Begin) {
            Err(e) => {
                return Err(e);
            },
            Ok(begin) => begin,
        };
        let end: i64 = match read_i64(tokens, at + 2, Key::End) {
            Err(e) => {
                return Err(e);
            },
            Ok(end) => end,
        };
        let (objects, next) = match load_handles(tokens, at + 3, Key::Objects) {
            Err(e) => {
                return Err(e);
            },
            Ok(read) => read,
        };
        match read_leave(tokens, next) {
            Err(e) => {
                return Err(e);
            },
            Ok(_) => {},
        }
        match LevelOfDetail::try_new(begin, end, objects) {
            Some(level) => Ok((level, next + 1)),
            None => Err(DecodeError { at: at + 3, kind: DecodeErrorKind::InvalidValue }),
        }
    }
}

/// Reading a well-formed level that was written gives the level back, and
/// ends where the written tokens end.
pub proof fn level_round_trip(
    before: Seq<TokenView>,
    level: LevelOfDetailView,
    key: Key,
    after: Seq<TokenView>,
)
    requires
        level.wf(),
        level.objects.len() <= u64::MAX,
    ensures
        level_at(before + level_tokens(level, key) + after, before.len() as int, key) == Ok::<
            (LevelOfDetailView, int),
            DecodeError,
        >((level, (before.len() + level_tokens(level, key).len()) as int)),
        level_tokens(level, key).len() == level.objects.len() + 7,
{
    reveal(level_tokens);
    reveal(level_at);
    let written = level_tokens(level, key);
    let s = before + written + after;
    let at = before.len() as int;
    let head = seq![
        TokenView::Enter(key),
        TokenView::Field(Key::Begin, ValueView::I64(level.begin as i64)),
        TokenView::Field(Key::End, ValueView::I64(level.end as i64)),
    ];
    let tail = seq![TokenView::Leave];
    handles_round_trip(before + head, level.objects, Key::Objects, tail + after);
    assert(s =~= (before + head) + handles_tokens(level.objects, Key::Objects) + (tail + after));
    assert(s[at] == head[0]);
    assert(s[at + 1] == head[1]);
    assert(s[at + 2] == head[2]);
    let next = at + 3 + handles_tokens(level.objects, Key::Objects).len();
    assert(s[next] == tail[0]);
}

/// The tokens of the levels of a group, one region of name `Item` each.
pub open spec fn levels_tokens(levels: Seq<LevelOfDetailView>) -> Seq<TokenView>
    decreases levels.len(),
{
    if levels.len() == 0 {
        Seq::empty()
    } else {
        levels_tokens(levels.drop_last()) + level_tokens(levels.last(), Key::Item)
    }
}

/// The tokens of a group in a region of name `key`: the number of levels,
/// then the levels.
#[verifier::opaque]
pub open spec fn group_tokens(group: LodGroupView, key: Key) -> Seq<TokenView> {
    seq![
        TokenView::Enter(key),
        TokenView::Field(Key::Length, ValueView::U64(group.levels.len() as u64)),
    ] + levels_tokens(group.levels) + seq![TokenView::Leave]
}

/// What reading `count` levels from place `at` on gives: the levels, and the
/// place after the last.
pub open spec fn levels_at(s: Seq<TokenView>, at: int, count: nat) -> Result<
    (Seq<LevelOfDetailView>, int),
    DecodeError,
>
    decreases count,
{
    if count == 0 {
        Ok((Seq::empty(), at))
    } else {
        match levels_at(s, at, (count - 1) as nat) {
            Err(e) => Err(e),
            Ok((front, next)) => match level_at(s, next, Key::Item) {
                Err(e) => Err(e),
                Ok((level, after)) => Ok((front.push(level), after)),
            },
        }
    }
}

/// What reading a group in a region of name `key` at place `at` gives: the
/// group, and the place after the region.
#[verifier::opaque]
pub open spec fn group_at(s: Seq<TokenView>, at: int, key: Key) -> Result<
    (LodGroupView, int),
    DecodeError,
> {
    match enter_at(s, at, key) {
        Err(e) => Err(e),
        Ok(_) => match u64_at(s, at + 1, Key::Length) {
            Err(e) => Err(e),
            Ok(count) => match levels_at(s, at + 2, count as nat) {
                Err(e) => Err(e),
                Ok((levels, next)) => match leave_at(s, next) {
                    Err(e) => Err(e),
                    Ok(_) => Ok((LodGroupView { levels }, next + 1)),
                },
            },
        },
    }
}

/// Where reading the level after the first `read` fails, reading any greater
/// number of levels fails in the same way.
pub proof fn levels_fail_on(
    s: Seq<TokenView>,
    at: int,
    read: nat,
    count: nat,
    next: int,
    e: DecodeError,
)
    requires
        read < count,
        levels_at(s, at, read) matches Ok((front, place)) && place == next,
        level_at(s, next, Key::Item) == Err::<(LevelOfDetailView, int), DecodeError>(e),
    ensures
        levels_at(s, at, count) == Err::<(Seq<LevelOfDetailView>, int), DecodeError>(e),
    decreases count,
{
    if count > read + 1 {
        levels_fail_on(s, at, read, (count - 1) as nat, next, e);
    }
}

/// Reading the levels that were written gives them back, and ends where the
/// written tokens end.
pub proof fn levels_round_trip(
    before: Seq<TokenView>,
    levels: Seq<LevelOfDetailView>,
    after: Seq<TokenView>,
)
    requires
        forall|i: int| 0 <= i < levels.len() ==> (#[trigger] levels[i]).wf(),
        forall|i: int| 0 <= i < levels.len() ==> (#[trigger] levels[i]).objects.len() <= u64::MAX,
    ensures
        levels_at(before + levels_tokens(levels) + after, before.len() as int, levels.len()) == Ok::<
            (Seq<LevelOfDetailView>, int),
            DecodeError,
        >((levels, (before.len() + levels_tokens(levels).len()) as int)),
    decreases levels.len(),
{
    let s = before + levels_tokens(levels) + after;
    if levels.len() > 0 {
        let front = levels.drop_last();
        let last = levels.last();
        let written = level_tokens(last, Key::Item);
        assert forall|i: int| 0 <= i < front.len() implies (#[trigger] front[i]).wf()
            && front[i].objects.len() <= u64::MAX by {
            assert(front[i] == levels[i]);
        }
        levels_round_trip(before, front, written + after);
        assert(s =~= before + levels_tokens(front) + (written + after));
        level_round_trip(before + levels_tokens(front), last, Key::Item, after);
        assert(s =~= (before + levels_tokens(front)) + written + after);
        assert(front.push(last) =~= levels);
        assert((levels.len() - 1) as nat == front.len());
    } else {
        assert(levels =~= Seq::<LevelOfDetailView>::empty());
    }
}

impl LodGroup {
    /// Writes the group in a region of name `key`.
    pub fn save(&self, key: Key, out: &mut Vec<Token>)
        ensures
            content(final(out)@) == content(old(out)@) + group_tokens(self@, key),
    {
        proof {
            reveal(group_tokens);
        }
        let ghost start = content(out@);
        put(out, Token::Enter(key));
        put(out, Token::Field(Key::Length, Value::U64(self.levels.len() as u64)));
        let ghost head = content(out@);
        let mut i: usize = 0;
        proof {
            assert(self@.levels.take(0) =~= Seq::<LevelOfDetailView>::empty());
            assert(content(out@) =~= head + levels_tokens(self@.levels.take(0)));
        }
        while i < self.levels.len()
            invariant
                i <= self.levels.len(),
                content(out@) == head + levels_tokens(self@.levels.take(i as int)),
            decreases self.levels.len() - i,
        {
            self.levels[i].save(Key::Item, out);
            proof {
                let upto = self@.levels.take(i + 1);
                assert(upto.drop_last() =~= self@.levels.take(i as int));
                assert(upto.last() == self.levels@[i as int]@);
                assert(content(out@) =~= head + levels_tokens(upto));
            }
            i = i + 1;
        }
        put(out, Token::Leave);
        proof {
            assert(self@.levels.take(self@.levels.len() as int) =~= self@.levels);
            assert(content(out@) =~= start + group_tokens(self@, key));
        }
    }

    /// Reads a group in a region of name `key` at place `at`, and returns it
    /// with the place after the region.
    pub fn load(tokens: &Vec<Token>, at: usize, key: Key) -> (r: Result<(Self, usize), DecodeError>)
        ensures
            match r {
                Ok((group, next)) => group_at(content(tokens@), at as int, key) == Ok::<
                    (LodGroupView, int),
                    DecodeError,
                >((group@, next as int)) && at < next <= tokens@.len() && group.wf(),
                Err(e) => group_at(content(tokens@), at as int, key) == Err::<
                    (LodGroupView, int),
                    DecodeError,
                >(e),
            },
    {
        proof {
            reveal(group_at);
        }
        let ghost s = content(tokens@);
        let total: usize = tokens.len();
        match read_enter(tokens, at, key) {
            Err(e) => {
                return Err(e);
            },
            Ok(_) => {},
        }
        let count: u64 = match read_u64(tokens, at + 1, Key::Length) {
            Err(e) => {
                return Err(e);
            },
            Ok(count) => count,
        };
        let mut levels: Vec<LevelOfDetail> = Vec::new();
        let mut i: u64 = 0;
        let mut next: usize = at + 2;
        proof {
            assert(levels@.map_values(|level: LevelOfDetail| level@) =~= Seq::<
                LevelOfDetailView,
            >::empty());
        }
        while i < count
            invariant
                i <= count,
                s == content(tokens@),
                total == tokens@.len(),
                at + 2 <= next <= tokens@.len(),
                enter_at(s, at as int, key) is Ok,
                u64_at(s, at + 1, Key::Length) == Ok::<u64, DecodeError>(count),
                levels_at(s, at + 2, i as nat) == Ok::<(Seq<LevelOfDetailView>, int), DecodeError>(
                    (levels@.map_values(|level: LevelOfDetail| level@), next as int),
                ),
                forall|j: int| 0 <= j < levels@.len() ==> (#[trigger] levels@[j]).wf(),
            decreases count - i,
        {
            let ghost read = levels@.map_values(|level: LevelOfDetail| level@);
            match LevelOfDetail::load(tokens, next, Key::Item) {
                Err(e) => {
                    proof {
                        reveal(group_at);
                        levels_fail_on(s, at + 2, i as nat, count as nat, next as int, e);
                    }
                    return Err(e);
                },
                Ok((level, after)) => {
                    levels.push(level);
                    next = after;
                    proof {
                        assert(levels@.map_values(|level: LevelOfDetail| level@) =~= read.push(
                            level@,
                        ));
                    }
                },
            }
            i = i + 1;
        }
        match read_leave(tokens, next) {
            Err(e) => Err(e),
            Ok(_) => {
                let group = LodGroup { levels };
                Ok((group, next + 1))
            },
        }
    }
}

/// Reading a well-formed group that was written gives the group back, and
/// ends where the written tokens end.
pub proof fn group_round_trip(
    before: Seq<TokenView>,
    group: LodGroupView,
    key: Key,
    after: Seq<TokenView>,
)
    requires
        group.wf(),
        group.levels.len() <= u64::MAX,
        forall|i: int|
            0 <= i < group.levels.len() ==> (#[trigger] group.levels[i]).objects.len() <= u64::MAX,
    ensures
        group_at(before + group_tokens(group, key) + after, before.len() as int, key) == Ok::<
            (LodGroupView, int),
            DecodeError,
        >((group, (before.len() + group_tokens(group, key).len()) as int)),
        group_tokens(group, key).len() >= 2,
        group_tokens(group, key)[0] == TokenView::Enter(key),
{
    reveal(group_tokens);
    reveal(group_at);
    let written = group_tokens(group, key);
    let s = before + written + after;
    let at = before.len() as int;
    let head = seq![
        TokenView::Enter(key),
        TokenView::Field(Key::Length, ValueView::U64(group.levels.len() as u64)),
    ];
    let tail = seq![TokenView::Leave];
    levels_round_trip(before + head, group.levels, tail + after);
    assert(s =~= (before + head) + levels_tokens(group.levels) + (tail + after));
    assert(s[at] == head[0]);
    assert(s[at + 1] == head[1]);
    let next = at + 2 + levels_tokens(group.levels).len();
    assert(s[next] == tail[0]);
}

/// The tokens of an optional 64-bit number: a flag under `flag`, and the
/// number under `key` where there is one.
pub open spec fn optional_tokens(value: Option<u64>, flag: Key, key: Key) -> Seq<TokenView> {
    match value {
        Some(n) => seq![
            TokenView::Field(flag, ValueView::Bool(true)),
            TokenView::Field(key, ValueView::U64(n)),
        ],
        None => seq![TokenView::Field(flag, ValueView::Bool(false))],
    }
}

/// What reading an optional 64-bit number at place `at` gives: the number, if
/// any, and the place after it.
pub open spec fn optional_at(s: Seq<TokenView>, at: int, flag: Key, key: Key) -> Result<
    (Option<u64>, int),
    DecodeError,
> {
    match bool_at(s, at, flag) {
        Err(e) => Err(e),
        Ok(present) => if present {
            match u64_at(s, at + 1, key) {
                Err(e) => Err(e),
                Ok(n) => Ok((Some(n), at + 2)),
            }
        } else {
            Ok((None, at + 1))
        },
    }
}

/// Writes an optional 64-bit number.
pub fn save_optional(value: Option<u64>, flag: Key, key: Key, out: &mut Vec<Token>)
    ensures
        content(final(out)@) == content(old(out)@) + optional_tokens(value, flag, key),
{
    let ghost start = content(out@);
    match value {
        Some(n) => {
            put(out, Token::Field(flag, Value::Bool(true)));
            put(out, Token::Field(key, Value::U64(n)));
        },
        None => {
            put(out, Token::Field(flag, Value::Bool(false)));
        },
    }
    assert(content(out@) =~= start + optional_tokens(value, flag, key));
}

/// Reads an optional 64-bit number at place `at`, and returns it with the
/// place after it.
pub fn load_optional(tokens: &Vec<Token>, at: usize, flag: Key, key: Key) -> (r: Result<
    (Option<u64>, usize),
    DecodeError,
>)
    ensures
        match r {
            Ok((value, next)) => optional_at(content(tokens@), at as int, flag, key) == Ok::<
                (Option<u64>, int),
                DecodeError,
            >((value, next as int)) && at < next <= tokens@.len(),
            Err(e) => optional_at(content(tokens@), at as int, flag, key) == Err::<
                (Option<u64>, int),
                DecodeError,
            >(e),
        },
{
    let total: usize = tokens.len();
    match read_bool(tokens, at, flag) {
        Err(e) => Err(e),
        Ok(present) => {
            if present {
                match read_u64(tokens, at + 1, key) {
                    Err(e) => Err(e),
                    Ok(n) => Ok((Some(n), at + 2)),
                }
            } else {
                Ok((None, at + 1))
            }
        },
    }
}

/// Reading an optional number that was written gives it back.
pub proof fn optional_round_trip(
    before: Seq<TokenView>,
    value: Option<u64>,
    flag: Key,
    key: Key,
    after: Seq<TokenView>,
)
    ensures
        optional_at(
            before + optional_tokens(value, flag, key) + after,
            before.len() as int,
            flag,
            key,
        ) == Ok::<(Option<u64>, int), DecodeError>(
            (value, (before.len() + optional_tokens(value, flag, key).len()) as int),
        ),
{
    let written = optional_tokens(value, flag, key);
    let s = before + written + after;
    let at = before.len() as int;
    assert(s[at] == written[0]);
    if value is Some {
        assert(s[at + 1] == written[1]);
    }
}

/// The tokens of a transform in a region of name `key`: position, rotation
/// and scale, component by component.
#[verifier::opaque]
pub open spec fn transform_tokens(t: Transform, key: Key) -> Seq<TokenView> {
    seq![
        TokenView::Enter(key),
        TokenView::Field(Key::PositionX, ValueView::U32(t.position.x)),
        TokenView::Field(Key::PositionY, ValueView::U32(t.position.y)),
        TokenView::Field(Key::PositionZ, ValueView::U32(t.position.z)),
        TokenView::Field(Key::RotationI, ValueView::U32(t.rotation.i)),
        TokenView::Field(Key::RotationJ, ValueView::U32(t.rotation.j)),
        TokenView::Field(Key::RotationK, ValueView::U32(t.rotation.k)),
        TokenView::Field(Key::RotationW, ValueView::U32(t.rotation.w)),
        TokenView::Field(Key::ScaleX, ValueView::U32(t.scale.x)),
        TokenView::Field(Key::ScaleY, ValueView::U32(t.scale.y)),
        TokenView::Field(Key::ScaleZ, ValueView::U32(t.scale.z)),
        TokenView::Leave,
    ]
}

/// What reading three numbers under the given names from place `at` on
/// gives.
pub open spec fn triple_at(s: Seq<TokenView>, at: int, x: Key, y: Key, z: Key) -> Result<
    Vector3,
    DecodeError,
> {
    match u32_at(s, at, x) {
        Err(e) => Err(e),
        Ok(a) => match u32_at(s, at + 1, y) {
            Err(e) => Err(e),
            Ok(b) => match u32_at(s, at + 2, z) {
                Err(e) => Err(e),
                Ok(c) => Ok(Vector3 { x: a, y: b, z: c }),
            },
        },
    }
}

/// What reading a rotation from place `at` on gives.
pub open spec fn rotation_at(s: Seq<TokenView>, at: int) -> Result<Quaternion, DecodeError> {
    match triple_at(s, at, Key::RotationI, Key::RotationJ, Key::RotationK) {
        Err(e) => Err(e),
        Ok(v) => match u32_at(s, at + 3, Key::RotationW) {
            Err(e) => Err(e),
            Ok(w) => Ok(Quaternion { i: v.x, j: v.y, k: v.z, w }),
        },
    }
}

/// What reading a transform in a region of name `key` at place `at` gives.
/// The region takes twelve tokens.
#[verifier::opaque]
pub open spec fn transform_at(s: Seq<TokenView>, at: int, key: Key) -> Result<
    Transform,
    DecodeError,
> {
    match enter_at(s, at, key) {
        Err(e) => Err(e),
        Ok(_) => match triple_at(s, at + 1, Key::PositionX, Key::PositionY, Key::PositionZ) {
            Err(e) => Err(e),
            Ok(position) => match rotation_at(s, at + 4) {
                Err(e) => Err(e),
                Ok(rotation) => match triple_at(s, at + 8, Key::ScaleX, Key::ScaleY, Key::ScaleZ) {
                    Err(e) => Err(e),
                    Ok(scale) => match leave_at(s, at + 11) {
                        Err(e) => Err(e),
                        Ok(_) => Ok(Transform { position, rotation, scale }),
                    },
                },
            },
        },
    }
}

/// Reads three numbers under the given names from place `at` on.
pub fn load_triple(tokens: &Vec<Token>, at: usize, x: Key, y: Key, z: Key) -> (r: Result<
    Vector3,
    DecodeError,
>)
    ensures
        r == triple_at(content(tokens@), at as int, x, y, z),
        r is Ok ==> at + 3 <= tokens@.len(),
{
    let total: usize = tokens.len();
    let a: u32 = match read_u32(tokens, at, x) {
        Err(e) => {
            return Err(e);
        },
        Ok(a) => a,
    };
    let b: u32 = match read_u32(tokens, at + 1, y) {
        Err(e) => {
            return Err(e);
        },
        Ok(b) => b,
    };
    let c: u32 = match read_u32(tokens, at + 2, z) {
        Err(e) => {
            return Err(e);
        },
        Ok(c) => c,
    };
    Ok(Vector3 { x: a, y: b, z: c })
}

impl Transform {
    /// Writes the transform in a region of name `key`.
    pub fn save(&self, key: Key, out: &mut Vec<Token>)
        ensures
            content(final(out)@) == content(old(out)@) + transform_tokens(*self, key),
    {
        proof {
            reveal(transform_tokens);
        }
        let ghost start = content(out@);
        put(out, Token::Enter(key));
        put(out, Token::Field(Key::PositionX, Value::U32(self.position.x)));
        put(out, Token::Field(Key::PositionY, Value::U32(self.position.y)));
        put(out, Token::Field(Key::PositionZ, Value::U32(self.position.z)));
        put(out, Token::Field(Key::RotationI, Value::U32(self.rotation.i)));
        put(out, Token::Field(Key::RotationJ, Value::U32(self.rotation.j)));
        put(out, Token::Field(Key::RotationK, Value::U32(self.rotation.k)));
        put(out, Token::Field(Key::RotationW, Value::U32(self.rotation.w)));
        put(out, Token::Field(Key::ScaleX, Value::U32(self.scale.x)));
        put(out, Token::Field(Key::ScaleY, Value::U32(self.scale.y)));
        put(out, Token::Field(Key::ScaleZ, Value::U32(self.scale.z)));
        put(out, Token::Leave);
        assert(content(out@) =~= start + transform_tokens(*self, key));
    }

    /// Reads a transform in a region of name `key` at place `at`. The region
    /// takes twelve tokens.
    pub fn load(tokens: &Vec<Token>, at: usize, key: Key) -> (r: Result<Self, DecodeError>)
        ensures
            r == transform_at(content(tokens@), at as int, key),
            r is Ok ==> at + 12 <= tokens@.len(),
    {
        proof {
            reveal(transform_at);
        }
        let total: usize = tokens.len();
        match read_enter(tokens, at, key) {
            Err(e) => {
                return Err(e);
            },
            Ok(_) => {},
        }
        let position: Vector3 = match load_triple(
            tokens,
            at + 1,
            Key::PositionX,
            Key::PositionY,
            Key::PositionZ,
        ) {
            Err(e) => {
                return Err(e);
            },
            Ok(v) => v,
        };
        let turn: Vector3 = match load_triple(
            tokens,
            at + 4,
            Key::RotationI,
            Key::RotationJ,
            Key::RotationK,
        ) {
            Err(e) => {
                return Err(e);
            },
            Ok(v) => v,
        };
        let w: u32 = match read_u32(tokens, at + 7, Key::RotationW) {
            Err(e) => {
                return Err(e);
            },
            Ok(w) => w,
        };
        let scale: Vector3 = match load_triple(tokens, at + 8, Key::ScaleX, Key::ScaleY, Key::ScaleZ) {
            Err(e) => {
                return Err(e);
            },
            Ok(v) => v,
        };
        match read_leave(tokens, at + 11) {
            Err(e) => Err(e),
            Ok(_) => Ok(
                Transform {
                    position,
                    rotation: Quaternion { i: turn.x, j: turn.y, k: turn.z, w },
                    scale,
                },
            ),
        }
    }
}

/// Reading a transform that was written gives it back.
pub proof fn transform_round_trip(
    before: Seq<TokenView>,
    t: Transform,
    key: Key,
    after: Seq<TokenView>,
)
    ensures
        transform_at(before + transform_tokens(t, key) + after, before.len() as int, key) == Ok::<
            Transform,
            DecodeError,
        >(t),
        transform_tokens(t, key).len() == 12,
{
    reveal(transform_tokens);
    reveal(transform_at);
    let written = transform_tokens(t, key);
    let s = before + written + after;
    let at = before.len() as int;
    assert forall|i: int| 0 <= i < 12 implies s[at + i] == written[i] by {}
    assert(s[at] == written[0]);
    assert(s[at + 1] == written[1]);
    assert(s[at + 2] == written[2]);
    assert(s[at + 3] == written[3]);
    assert(s[at + 4] == written[4]);
    assert(s[at + 5] == written[5]);
    assert(s[at + 6] == written[6]);
    assert(s[at + 7] == written[7]);
    assert(s[at + 8] == written[8]);
    assert(s[at + 9] == written[9]);
    assert(s[at + 10] == written[10]);
    assert(s[at + 11] == written[11]);
}

/// The number under which a resource is written.
pub open spec fn resource_number(resource: Option<ResourceId>) -> Option<u64> {
    match resource {
        Some(id) => Some(id.0),
        None => None,
    }
}

/// The resource written under a number.
pub open spec fn numbered_resource(number: Option<u64>) -> Option<ResourceId> {
    match number {
        Some(n) => Some(ResourceId(n)),
        None => None,
    }
}

/// The tokens of the level-of-detail group of a node: the group in a region
/// of name `LodGroup`, or nothing.
pub open spec fn lod_tokens(group: Option<LodGroupView>) -> Seq<TokenView> {
    match group {
        Some(g) => group_tokens(g, Key::LodGroup),
        None => Seq::empty(),
    }
}

/// What reading the level-of-detail group of a node at place `at` gives.
/// Where the region of the node ends there, the node has no group.
pub open spec fn lod_at(s: Seq<TokenView>, at: int) -> Result<
    (Option<LodGroupView>, int),
    DecodeError,
> {
    if leave_at(s, at) is Ok {
        Ok((None, at))
    } else {
        match group_at(s, at, Key::LodGroup) {
            Err(e) => Err(e),
            Ok((group, next)) => Ok((Some(group), next)),
        }
    }
}

impl BaseView {
    /// What is persisted of a node's state: all but the cached global state
    /// and the bind pose, which are as in a node fresh from the builder.
    pub open spec fn persisted(self) -> BaseView {
        BaseView {
            global_visibility: true,
            global_transform: Matrix4::spec_identity(),
            inv_bind_pose_transform: Matrix4::spec_identity(),
            ..self
        }
    }

    /// Whether the lengths of all lists of the state can be written: each is
    /// a 64-bit number.
    pub open spec fn fits(self) -> bool {
        &&& self.children.len() <= u64::MAX
        &&& self.lod_group matches Some(group) ==> {
            &&& group.levels.len() <= u64::MAX
            &&& forall|i: int|
                0 <= i < group.levels.len() ==> (#[trigger] group.levels[i]).objects.len()
                    <= u64::MAX
        }
    }
}

/// The tokens of the first half of a node's state in a region of name `key`:
/// the opening of the region, the name, the local transform, the visibility,
/// the parent and the children.
#[verifier::opaque]
pub open spec fn base_front_tokens(base: BaseView, key: Key) -> Seq<TokenView> {
    seq![TokenView::Enter(key), TokenView::Field(Key::Name, ValueView::Text(base.name))]
        + transform_tokens(base.local_transform, Key::Transform) + seq![
        TokenView::Field(Key::Visibility, ValueView::Bool(base.visibility)),
        TokenView::Field(Key::Parent, ValueView::Handle(base.parent)),
    ] + handles_tokens(base.children, Key::Children)
}

/// The tokens of the second half of a node's state: the resource, the
/// resource-instance flag, the original, the lifetime, the depth offset, the
/// level-of-detail group and the closing of the region.
#[verifier::opaque]
pub open spec fn base_back_tokens(base: BaseView) -> Seq<TokenView> {
    optional_tokens(resource_number(base.resource), Key::HasResource, Key::Resource) + seq![
        TokenView::Field(Key::IsResourceInstance, ValueView::Bool(base.is_resource_instance)),
        TokenView::Field(Key::Original, ValueView::Handle(base.original)),
    ] + optional_tokens(base.lifetime, Key::HasLifetime, Key::Lifetime) + seq![
        TokenView::Field(Key::DepthOffset, ValueView::I64(base.depth_offset as i64)),
    ] + lod_tokens(base.lod_group) + seq![TokenView::Leave]
}

/// The tokens of a node's state in a region of name `key`.
#[verifier::opaque]
pub open spec fn base_tokens(base: BaseView, key: Key) -> Seq<TokenView> {
    base_front_tokens(base, key) + base_back_tokens(base)
}

/// What reading a node's state in a region of name `key` at place `at`
/// gives: the state, and the place after the region. The depth offset is
/// taken as `set_depth_offset_factor` takes it. What is not persisted is as
/// in a node fresh from the builder.
#[verifier::opaque]
pub open spec fn base_at(s: Seq<TokenView>, at: int, key: Key) -> Result<
    (BaseView, int),
    DecodeError,
> {
    match enter_at(s, at, key) {
        Err(e) => Err(e),
        Ok(_) => match text_at(s, at + 1, Key::Name) {
            Err(e) => Err(e),
            Ok(name) => match transform_at(s, at + 2, Key::Transform) {
                Err(e) => Err(e),
                Ok(local_transform) => match bool_at(s, at + 14, Key::Visibility) {
                    Err(e) => Err(e),
                    Ok(visibility) => match handle_at(s, at + 15, Key::Parent) {
                        Err(e) => Err(e),
                        Ok(parent) => match handles_at(s, at + 16, Key::Children) {
                            Err(e) => Err(e),
                            Ok((children, after_children)) => base_rest_at(
                                s,
                                after_children,
                                BaseView {
                                    name,
                                    local_transform,
                                    visibility,
                                    global_visibility: true,
                                    parent,
                                    children,
                                    global_transform: Matrix4::spec_identity(),
                                    inv_bind_pose_transform: Matrix4::spec_identity(),
                                    resource: None,
                                    original: Handle::spec_none(),
                                    is_resource_instance: false,
                                    lifetime: None,
                                    depth_offset: 0,
                                    lod_group: None,
                                },
                            ),
                        },
                    },
                },
            },
        },
    }
}

/// What reading the second half of a node's state from place `at` on gives,
/// where `first` holds what the first half gave.
#[verifier::opaque]
pub open spec fn base_rest_at(s: Seq<TokenView>, at: int, first: BaseView) -> Result<
    (BaseView, int),
    DecodeError,
> {
    match optional_at(s, at, Key::HasResource, Key::Resource) {
        Err(e) => Err(e),
        Ok((resource, after_resource)) => match bool_at(s, after_resource, Key::IsResourceInstance) {
            Err(e) => Err(e),
            Ok(is_resource_instance) => match handle_at(s, after_resource + 1, Key::Original) {
                Err(e) => Err(e),
                Ok(original) => match optional_at(s, after_resource + 2, Key::HasLifetime, Key::Lifetime) {
                    Err(e) => Err(e),
                    Ok((lifetime, after_lifetime)) => match i64_at(s, after_lifetime, Key::DepthOffset) {
                        Err(e) => Err(e),
                        Ok(depth) => match lod_at(s, after_lifetime + 1) {
                            Err(e) => Err(e),
                            Ok((lod_group, after_group)) => match leave_at(s, after_group) {
                                Err(e) => Err(e),
                                Ok(_) => Ok(
                                    (
                                        BaseView {
                                            resource: numbered_resource(resource),
                                            original,
                                            is_resource_instance,
                                            lifetime,
                                            depth_offset: clamp_unit(magnitude(depth as int)),
                                            lod_group,
                                            ..first
                                        },
                                        after_group + 1,
                                    ),
                                ),
                            },
                        },
                    },
                },
            },
        },
    }
}

impl Base {
    /// Writes the state in a region of name `key`. The cached global state
    /// and the bind pose are not written.
    pub fn save(&self, key: Key, out: &mut Vec<Token>)
        ensures
            content(final(out)@) == content(old(out)@) + base_tokens(self@, key),
    {
        let ghost start = content(out@);
        proof {
            reveal(base_tokens);
            reveal(base_front_tokens);
            reveal(base_back_tokens);
        }
        put(out, Token::Enter(key));
        put(out, Token::Field(Key::Name, Value::Text(self.name().to_owned())));
        self.local_transform().save(Key::Transform, out);
        put(out, Token::Field(Key::Visibility, Value::Bool(self.visibility())));
        put(out, Token::Field(Key::Parent, Value::Handle(self.parent())));
        save_handles(self.children(), Key::Children, out);
        let resource: Option<u64> = match self.resource() {
            Some(id) => Some(id.0),
            None => None,
        };
        save_optional(resource, Key::HasResource, Key::Resource, out);
        put(out, Token::Field(Key::IsResourceInstance, Value::Bool(self.is_resource_instance())));
        put(out, Token::Field(Key::Original, Value::Handle(self.original_handle())));
        save_optional(self.lifetime(), Key::HasLifetime, Key::Lifetime, out);
        put(out, Token::Field(Key::DepthOffset, Value::I64(self.depth_offset_factor())));
        match self.lod_group() {
            Some(group) => {
                group.save(Key::LodGroup, out);
            },
            None => {},
        }
        put(out, Token::Leave);
        assert(content(out@) =~= start + base_tokens(self@, key));
    }

    /// Reads a node's state in a region of name `key` at place `at`, and
    /// returns it with the place after the region.
    #[verifier::rlimit(40)]
    pub fn load(tokens: &Vec<Token>, at: usize, key: Key) -> (r: Result<(Self, usize), DecodeError>)
        ensures
            match r {
                Ok((base, next)) => base_at(content(tokens@), at as int, key) == Ok::<
                    (BaseView, int),
                    DecodeError,
                >((base@, next as int)) && at < next <= tokens@.len() && base.wf(),
                Err(e) => base_at(content(tokens@), at as int, key) == Err::<
                    (BaseView, int),
                    DecodeError,
                >(e),
            },
    {
        proof {
            reveal(base_at);
            reveal(base_rest_at);
        }
        let total: usize = tokens.len();
        match read_enter(tokens, at, key) {
            Err(e) => {
                return Err(e);
            },
            Ok(_) => {},
        }
        let name: String = match read_text(tokens, at + 1, Key::Name) {
            Err(e) => {
                return Err(e);
            },
            Ok(name) => name,
        };
        let local_transform: Transform = match Transform::load(tokens, at + 2, Key::Transform) {
            Err(e) => {
                return Err(e);
            },
            Ok(t) => t,
        };
        let visibility: bool = match read_bool(tokens, at + 14, Key::Visibility) {
            Err(e) => {
                return Err(e);
            },
            Ok(v) => v,
        };
        let parent: Handle = match read_handle(tokens, at + 15, Key::Parent) {
            Err(e) => {
                return Err(e);
            },
            Ok(h) => h,
        };
        let (children, after_children) = match load_handles(tokens, at + 16, Key::Children) {
            Err(e) => {
                return Err(e);
            },
            Ok(read) => read,
        };
        let (resource, after_resource) = match load_optional(
            tokens,
            after_children,
            Key::HasResource,
            Key::Resource,
        ) {
            Err(e) => {
                return Err(e);
            },
            Ok(read) => read,
        };
        let is_resource_instance: bool = match read_bool(tokens, after_resource, Key::IsResourceInstance) {
            Err(e) => {
                return Err(e);
            },
            Ok(v) => v,
        };
        let original: Handle = match read_handle(tokens, after_resource + 1, Key::Original) {
            Err(e) => {
                return Err(e);
            },
            Ok(h) => h,
        };
        let (lifetime, after_lifetime) = match load_optional(
            tokens,
            after_resource + 2,
            Key::HasLifetime,
            Key::Lifetime,
        ) {
            Err(e) => {
                return Err(e);
            },
            Ok(read) => read,
        };
        let depth: i64 = match read_i64(tokens, after_lifetime, Key::DepthOffset) {
            Err(e) => {
                return Err(e);
            },
            Ok(n) => n,
        };
        let mut builder = BaseBuilder::new().with_name(name.as_str()).with_local_transform(
            local_transform,
        ).with_visibility(visibility).with_children(children).with_depth_offset(depth);
        match lifetime {
            Some(time) => {
                builder = builder.with_lifetime(time);
            },
            None => {},
        }
        let mut after_group: usize = after_lifetime + 1;
        match read_leave(tokens, after_lifetime + 1) {
            Ok(_) => {},
            Err(_) => {
                match LodGroup::load(tokens, after_lifetime + 1, Key::LodGroup) {
                    Err(e) => {
                        return Err(e);
                    },
                    Ok((group, next)) => {
                        builder = builder.with_lod_group(group);
                        after_group = next;
                    },
                }
            },
        }
        match read_leave(tokens, after_group) {
            Err(e) => {
                return Err(e);
            },
            Ok(_) => {},
        }
        let resource: Option<ResourceId> = match resource {
            Some(n) => Some(ResourceId(n)),
            None => None,
        };
        let base = Base::restore(builder, parent, resource, original, is_resource_instance);
        Ok((base, after_group + 1))
    }
}

/// In a row made of three parts, the tokens of the middle part stand after
/// those of the first.
pub proof fn middle_tokens(before: Seq<TokenView>, written: Seq<TokenView>, after: Seq<TokenView>)
    ensures
        forall|i: int|
            0 <= i < written.len() ==> #[trigger] (before + written + after)[before.len() as int
                + i] == written[i],
        forall|i: int|
            0 <= i < after.len() ==> #[trigger] (before + written + after)[(before.len()
                + written.len()) as int + i] == after[i],
        (before + written + after).len() == before.len() + written.len() + after.len(),
{
}

/// A row of six parts between two others can be cut before and after each
/// part.
pub proof fn six_parts(
    b: Seq<TokenView>,
    first: Seq<TokenView>,
    second: Seq<TokenView>,
    third: Seq<TokenView>,
    fourth: Seq<TokenView>,
    fifth: Seq<TokenView>,
    sixth: Seq<TokenView>,
    a: Seq<TokenView>,
)
    ensures
        b + (first + second + third + fourth + fifth + sixth) + a == b + first + (second + third
            + fourth + fifth + sixth + a),
        b + (first + second + third + fourth + fifth + sixth) + a == (b + first) + second + (third
            + fourth + fifth + sixth + a),
        b + (first + second + third + fourth + fifth + sixth) + a == (b + first + second) + third
            + (fourth + fifth + sixth + a),
        b + (first + second + third + fourth + fifth + sixth) + a == (b + first + second + third)
            + fourth + (fifth + sixth + a),
        b + (first + second + third + fourth + fifth + sixth) + a == (b + first + second + third
            + fourth) + fifth + (sixth + a),
        (first + second + third + fourth + fifth + sixth).len() == first.len() + second.len()
            + third.len() + fourth.len() + fifth.len() + sixth.len(),
{
    let s = b + (first + second + third + fourth + fifth + sixth) + a;
    assert(s =~= b + first + (second + third + fourth + fifth + sixth + a));
    assert(s =~= (b + first) + second + (third + fourth + fifth + sixth + a));
    assert(s =~= (b + first + second) + third + (fourth + fifth + sixth + a));
    assert(s =~= (b + first + second + third) + fourth + (fifth + sixth + a));
    assert(s =~= (b + first + second + third + fourth) + fifth + (sixth + a));
}

/// A row of five parts between two others can be cut before and after each
/// part.
pub proof fn five_parts(
    b: Seq<TokenView>,
    first: Seq<TokenView>,
    second: Seq<TokenView>,
    third: Seq<TokenView>,
    fourth: Seq<TokenView>,
    fifth: Seq<TokenView>,
    a: Seq<TokenView>,
)
    ensures
        b + (first + second + third + fourth + fifth) + a == b + first + (second + third + fourth
            + fifth + a),
        b + (first + second + third + fourth + fifth) + a == (b + first) + second + (third + fourth
            + fifth + a),
        b + (first + second + third + fourth + fifth) + a == (b + first + second) + third + (fourth
            + fifth + a),
        b + (first + second + third + fourth + fifth) + a == (b + first + second + third) + fourth
            + (fifth + a),
        b + (first + second + third + fourth + fifth) + a == (b + (first + second + third + fourth))
            + fifth + a,
        (first + second + third + fourth).len() == first.len() + second.len() + third.len()
            + fourth.len(),
{
    let s = b + (first + second + third + fourth + fifth) + a;
    assert(s =~= b + first + (second + third + fourth + fifth + a));
    assert(s =~= (b + first) + second + (third + fourth + fifth + a));
    assert(s =~= (b + first + second) + third + (fourth + fifth + a));
    assert(s =~= (b + first + second + third) + fourth + (fifth + a));
    assert(s =~= (b + (first + second + third + fourth)) + fifth + a);
}

/// Reading the second half of a well-formed state that was written gives it
/// back, and ends where the written tokens end.
#[verifier::rlimit(40)]
pub proof fn base_back_round_trip(
    before: Seq<TokenView>,
    base: BaseView,
    after: Seq<TokenView>,
    first: BaseView,
)
    requires
        base.wf(),
        base.fits(),
    ensures
        base_rest_at(before + base_back_tokens(base) + after, before.len() as int, first) == Ok::<
            (BaseView, int),
            DecodeError,
        >(
            (
                BaseView {
                    resource: base.resource,
                    original: base.original,
                    is_resource_instance: base.is_resource_instance,
                    lifetime: base.lifetime,
                    depth_offset: base.depth_offset,
                    lod_group: base.lod_group,
                    ..first
                },
                (before.len() + base_back_tokens(base).len()) as int,
            ),
        ),
{
    reveal(base_back_tokens);
    reveal(base_rest_at);
    let written = base_back_tokens(base);
    let s = before + written + after;
    let at = before.len() as int;
    let part4 = optional_tokens(resource_number(base.resource), Key::HasResource, Key::Resource);
    let part5 = seq![
        TokenView::Field(Key::IsResourceInstance, ValueView::Bool(base.is_resource_instance)),
        TokenView::Field(Key::Original, ValueView::Handle(base.original)),
    ];
    let part6 = optional_tokens(base.lifetime, Key::HasLifetime, Key::Lifetime);
    let part7 = seq![TokenView::Field(Key::DepthOffset, ValueView::I64(base.depth_offset as i64))];
    let part8 = lod_tokens(base.lod_group);
    let part9 = seq![TokenView::Leave];
    let after_resource = at + part4.len();
    let after_lifetime = after_resource + 2 + part6.len();
    let after_group = after_lifetime + 1 + part8.len();
    assert(written == part4 + part5 + part6 + part7 + part8 + part9);
    six_parts(before, part4, part5, part6, part7, part8, part9, after);

    assert(optional_at(s, at, Key::HasResource, Key::Resource) == Ok::<
        (Option<u64>, int),
        DecodeError,
    >((resource_number(base.resource), after_resource))) by {
        optional_round_trip(
            before,
            resource_number(base.resource),
            Key::HasResource,
            Key::Resource,
            part5 + part6 + part7 + part8 + part9 + after,
        );
    }
    assert(bool_at(s, after_resource, Key::IsResourceInstance) == Ok::<bool, DecodeError>(
        base.is_resource_instance,
    ) && handle_at(s, after_resource + 1, Key::Original) == Ok::<Handle, DecodeError>(base.original)) by {
        let front = before + part4;
        let rest = part6 + part7 + part8 + part9 + after;
        middle_tokens(front, part5, rest);
        assert(s[front.len() as int + 0] == part5[0]);
        assert(s[front.len() as int + 1] == part5[1]);
    }
    assert(optional_at(s, after_resource + 2, Key::HasLifetime, Key::Lifetime) == Ok::<
        (Option<u64>, int),
        DecodeError,
    >((base.lifetime, after_lifetime))) by {
        optional_round_trip(
            before + part4 + part5,
            base.lifetime,
            Key::HasLifetime,
            Key::Lifetime,
            part7 + part8 + part9 + after,
        );
    }
    assert(i64_at(s, after_lifetime, Key::DepthOffset) == Ok::<i64, DecodeError>(
        base.depth_offset as i64,
    )) by {
        let front = before + part4 + part5 + part6;
        let rest = part8 + part9 + after;
        middle_tokens(front, part7, rest);
        assert(s[front.len() as int + 0] == part7[0]);
    }
    assert(lod_at(s, after_lifetime + 1) == Ok::<(Option<LodGroupView>, int), DecodeError>(
        (base.lod_group, after_group),
    ) && leave_at(s, after_group) is Ok) by {
        let front = before + part4 + part5 + part6 + part7;
        let rest = part9 + after;
        middle_tokens(front, part8, rest);
        assert(s[(front.len() + part8.len()) as int + 0] == rest[0]);
        match base.lod_group {
            Some(group) => {
                group_round_trip(front, group, Key::LodGroup, rest);
                assert(s[front.len() as int + 0] == part8[0]);
            },
            None => {},
        }
    }
    assert(numbered_resource(resource_number(base.resource)) == base.resource);
    assert(clamp_unit(magnitude((base.depth_offset as i64) as int)) == base.depth_offset);
}

/// Reading a well-formed state that was written gives back what is
/// persisted of it, and ends where the written tokens end.
#[verifier::rlimit(40)]
pub proof fn base_round_trip(
    before: Seq<TokenView>,
    base: BaseView,
    key: Key,
    after: Seq<TokenView>,
)
    requires
        base.wf(),
        base.fits(),
    ensures
        base_at(before + base_tokens(base, key) + after, before.len() as int, key) == Ok::<
            (BaseView, int),
            DecodeError,
        >((base.persisted(), (before.len() + base_tokens(base, key).len()) as int)),
{
    reveal(base_tokens);
    reveal(base_front_tokens);
    reveal(base_at);
    let front_tokens = base_front_tokens(base, key);
    let back_tokens = base_back_tokens(base);
    let s = before + base_tokens(base, key) + after;
    let at = before.len() as int;
    let part0 = seq![TokenView::Enter(key), TokenView::Field(Key::Name, ValueView::Text(base.name))];
    let part1 = transform_tokens(base.local_transform, Key::Transform);
    let part2 = seq![
        TokenView::Field(Key::Visibility, ValueView::Bool(base.visibility)),
        TokenView::Field(Key::Parent, ValueView::Handle(base.parent)),
    ];
    let part3 = handles_tokens(base.children, Key::Children);
    let after_children = at + 16 + part3.len();
    let first = BaseView {
        name: base.name,
        local_transform: base.local_transform,
        visibility: base.visibility,
        global_visibility: true,
        parent: base.parent,
        children: base.children,
        global_transform: Matrix4::spec_identity(),
        inv_bind_pose_transform: Matrix4::spec_identity(),
        resource: None,
        original: Handle::spec_none(),
        is_resource_instance: false,
        lifetime: None,
        depth_offset: 0,
        lod_group: None,
    };
    assert(base_tokens(base, key) == part0 + part1 + part2 + part3 + back_tokens);
    assert(front_tokens == part0 + part1 + part2 + part3);
    five_parts(before, part0, part1, part2, part3, back_tokens, after);
    transform_round_trip(before + part0, base.local_transform, Key::Transform, part2 + part3
        + back_tokens + after);
    assert(part0.len() == 2 && part1.len() == 12 && part2.len() == 2);
    assert(enter_at(s, at, key) is Ok && text_at(s, at + 1, Key::Name) == Ok::<
        Seq<char>,
        DecodeError,
    >(base.name)) by {
        let rest = part1 + part2 + part3 + back_tokens + after;
        middle_tokens(before, part0, rest);
        assert(s[before.len() as int + 0] == part0[0]);
        assert(s[before.len() as int + 1] == part0[1]);
    }
    assert(bool_at(s, at + 14, Key::Visibility) == Ok::<bool, DecodeError>(base.visibility)
        && handle_at(s, at + 15, Key::Parent) == Ok::<Handle, DecodeError>(base.parent)) by {
        let front = before + part0 + part1;
        let rest = part3 + back_tokens + after;
        middle_tokens(front, part2, rest);
        assert(s[front.len() as int + 0] == part2[0]);
        assert(s[front.len() as int + 1] == part2[1]);
    }
    assert(handles_at(s, at + 16, Key::Children) == Ok::<(Seq<Handle>, int), DecodeError>(
        (base.children, after_children),
    )) by {
        handles_round_trip(
            before + part0 + part1 + part2,
            base.children,
            Key::Children,
            back_tokens + after,
        );
    }
    assert(base_rest_at(s, after_children, first) == Ok::<(BaseView, int), DecodeError>(
        (base.persisted(), (before.len() + base_tokens(base, key).len()) as int),
    )) by {
        let front = before + front_tokens;
        assert(front.len() == after_children);
        base_back_round_trip(front, base, after, first);
    }
}

/// The number that stands for the plain kind of node.
pub const PLAIN_NODE: u32 = 0;

/// The tokens of a node in a region of name `key`: its kind, then its state.
#[verifier::opaque]
pub open spec fn node_tokens(base: BaseView, key: Key) -> Seq<TokenView> {
    seq![TokenView::Enter(key), TokenView::Field(Key::Kind, ValueView::U32(PLAIN_NODE))]
        + base_tokens(base, Key::Base) + seq![TokenView::Leave]
}

/// What reading a node in a region of name `key` at place `at` gives: the
/// state of the node, and the place after the region. A kind other than the
/// plain one is not known.
#[verifier::opaque]
pub open spec fn node_at(s: Seq<TokenView>, at: int, key: Key) -> Result<
    (BaseView, int),
    DecodeError,
> {
    match enter_at(s, at, key) {
        Err(e) => Err(e),
        Ok(_) => match u32_at(s, at + 1, Key::Kind) {
            Err(e) => Err(e),
            Ok(kind) => if kind != PLAIN_NODE {
                Err(failure(at + 1, DecodeErrorKind::UnknownNodeKind))
            } else {
                match base_at(s, at + 2, Key::Base) {
                    Err(e) => Err(e),
                    Ok((base, next)) => match leave_at(s, next) {
                        Err(e) => Err(e),
                        Ok(_) => Ok((base, next + 1)),
                    },
                }
            },
        },
    }
}

impl Node {
    /// Writes the node in a region of name `key`.
    pub fn save(&self, key: Key, out: &mut Vec<Token>)
        ensures
            content(final(out)@) == content(old(out)@) + node_tokens(self.spec_base()@, key),
    {
        let ghost start = content(out@);
        proof {
            reveal(node_tokens);
        }
        put(out, Token::Enter(key));
        match self {
            Node::Base(base) => {
                put(out, Token::Field(Key::Kind, Value::U32(PLAIN_NODE)));
                base.save(Key::Base, out);
            },
        }
        put(out, Token::Leave);
        assert(content(out@) =~= start + node_tokens(self.spec_base()@, key));
    }

    /// Reads a node in a region of name `key` at place `at`, and returns it
    /// with the place after the region.
    pub fn load(tokens: &Vec<Token>, at: usize, key: Key) -> (r: Result<(Self, usize), DecodeError>)
        ensures
            match r {
                Ok((node, next)) => node_at(content(tokens@), at as int, key) == Ok::<
                    (BaseView, int),
                    DecodeError,
                >((node.spec_base()@, next as int)) && at < next <= tokens@.len()
                    && node.spec_base().wf(),
                Err(e) => node_at(content(tokens@), at as int, key) == Err::<
                    (BaseView, int),
                    DecodeError,
                >(e),
            },
    {
        proof {
            reveal(node_at);
        }
        let total: usize = tokens.len();
        match read_enter(tokens, at, key) {
            Err(e) => {
                return Err(e);
            },
            Ok(_) => {},
        }
        let kind: u32 = match read_u32(tokens, at + 1, Key::Kind) {
            Err(e) => {
                return Err(e);
            },
            Ok(kind) => kind,
        };
        if kind != PLAIN_NODE {
            return Err(DecodeError { at: at + 1, kind: DecodeErrorKind::UnknownNodeKind });
        }
        let (base, next) = match Base::load(tokens, at + 2, Key::Base) {
            Err(e) => {
                return Err(e);
            },
            Ok(read) => read,
        };
        match read_leave(tokens, next) {
            Err(e) => Err(e),
            Ok(_) => Ok((Node::Base(base), next + 1)),
        }
    }
}

/// Reading a node that was written gives back what is persisted of its
/// state, and ends where the written tokens end.
pub proof fn node_round_trip(
    before: Seq<TokenView>,
    base: BaseView,
    key: Key,
    after: Seq<TokenView>,
)
    requires
        base.wf(),
        base.fits(),
    ensures
        node_at(before + node_tokens(base, key) + after, before.len() as int, key) == Ok::<
            (BaseView, int),
            DecodeError,
        >((base.persisted(), (before.len() + node_tokens(base, key).len()) as int)),
{
    reveal(node_tokens);
    reveal(node_at);
    let head = seq![TokenView::Enter(key), TokenView::Field(Key::Kind, ValueView::U32(PLAIN_NODE))];
    let tail = seq![TokenView::Leave];
    let body = base_tokens(base, Key::Base);
    node_parts(before, head, body, tail, after);
    let s = before + (head + body + tail) + after;
    let at = before.len() as int;
    base_round_trip(before + head, base, Key::Base, tail + after);
    middle_tokens(before, head, body + tail + after);
    assert(s[before.len() as int + 0] == head[0]);
    assert(s[before.len() as int + 1] == head[1]);
    middle_tokens(before + head, body, tail + after);
    assert(s[((before + head).len() + body.len()) as int + 0] == (tail + after)[0]);
}

/// A row of three parts between two others can be cut before and after the
/// middle one.
pub proof fn node_parts(
    b: Seq<TokenView>,
    head: Seq<TokenView>,
    body: Seq<TokenView>,
    tail: Seq<TokenView>,
    a: Seq<TokenView>,
)
    ensures
        b + (head + body + tail) + a == (b + head) + body + (tail + a),
        b + (head + body + tail) + a == b + head + (body + tail + a),
        (head + body + tail).len() == head.len() + body.len() + tail.len(),
{
    let s = b + (head + body + tail) + a;
    assert(s =~= (b + head) + body + (tail + a));
    assert(s =~= b + head + (body + tail + a));
}

} // verus!
