use vstd::prelude::*;

use crate::error::ApiError;

verus! {

/// A record as a pair of character sequences: its title and its content.
pub type RecordView = (Seq<char>, Seq<char>);

/// One stored record.
#[derive(Debug, Clone)]
pub struct Todo {
    pub title: String,
    pub content: String,
}

impl View for Todo {
    type V = RecordView;

    open spec fn view(&self) -> RecordView {
        (self.title@, self.content@)
    }
}

/// The whole collection, in insertion order.
#[derive(Debug, Clone)]
pub struct TodoFile {
    pub todo_list: Vec<Todo>,
}

impl View for TodoFile {
    type V = Seq<RecordView>;

    open spec fn view(&self) -> Seq<RecordView> {
        self.todo_list@.map_values(|t: Todo| t@)
    }
}

/// Some record of `c` has title `t`.
pub open spec fn has_title(c: Seq<RecordView>, t: Seq<char>) -> bool {
    exists|i: int| 0 <= i < c.len() && #[trigger] c[i].0 == t
}

/// `i` is the position of the first record of `c` titled `t`.
pub open spec fn is_first_with_title(c: Seq<RecordView>, t: Seq<char>, i: int) -> bool {
    &&& 0 <= i < c.len()
    &&& c[i].0 == t
    &&& forall|j: int| 0 <= j < i ==> #[trigger] c[j].0 != t
}

/// The collection after creating a record: `None` where the title is taken.
pub open spec fn created(c: Seq<RecordView>, t: Seq<char>, body: Seq<char>) -> Option<
    Seq<RecordView>,
> {
    if has_title(c, t) {
        None
    } else {
        Some(c.push((t, body)))
    }
}

/// The collection with every record titled `t` removed, order kept.
pub open spec fn deleted(c: Seq<RecordView>, t: Seq<char>) -> Seq<RecordView> {
    c.filter(other_title(t))
}

/// The test a record passes to survive the deletion of title `t`.
pub open spec fn other_title(t: Seq<char>) -> spec_fn(RecordView) -> bool {
    |r: RecordView| r.0 != t
}


/// Deleting from a collection that grew by one record.
pub proof fn lemma_deleted_push(c: Seq<RecordView>, r: RecordView, t: Seq<char>)
    ensures
        deleted(c.push(r), t) == (if r.0 != t {
            deleted(c, t).push(r)
        } else {
            deleted(c, t)
        }),
{
    reveal_with_fuel(Seq::filter, 1);
    assert(c.push(r).drop_last() =~= c);
}

impl TodoFile {
    /// An empty collection.
    pub fn new() -> (r: TodoFile)
        ensures
            r@ == Seq::<RecordView>::empty(),
    {
        TodoFile { todo_list: Vec::new() }
    }

    /// Position of the first record titled `title`, if any.
    pub fn position_of(&self, title: &String) -> (r: Option<usize>)
        ensures
            match r {
                Some(i) => is_first_with_title(self@, title@, i as int),
                None => !has_title(self@, title@),
            },
    {
        let mut i: usize = 0;
        while i < self.todo_list.len()
            invariant
                0 <= i <= self.todo_list@.len(),
                forall|j: int| 0 <= j < i ==> #[trigger] self@[j].0 != title@,
            decreases self.todo_list@.len() - i,
        {
            if self.todo_list[i].title == *title {
                return Some(i);
            }
            i = i + 1;
        }
        None
    }

    /// The first record whose title equals `title` exactly.
    pub fn find_by_title(&self, title: &String) -> (r: Result<Todo, ApiError>)
        ensures
            match r {
                Ok(rec) => exists|i: int| is_first_with_title(self@, title@, i) && rec@ == self@[i],
                Err(e) => e is NotFound && !has_title(self@, title@),
            },
    {
        match self.position_of(title) {
            Some(i) => {
                let rec = Todo {
                    title: self.todo_list[i].title.clone(),
                    content: self.todo_list[i].content.clone(),
                };
                Ok(rec)
            },
            None => Err(ApiError::NotFound),
        }
    }

    /// Appends a record titled `title`, unless one with that title exists, in
    /// which case the collection is left as it was.
    pub fn create(&mut self, title: String, content: String) -> (r: Result<(), ApiError>)
        ensures
            match created(old(self)@, title@, content@) {
                Some(c) => r is Ok && final(self)@ == c,
                None => r matches Err(e) && e is AlreadyExists && final(self)@ == old(self)@,
            },
    {
        match self.position_of(&title) {
            Some(_) => Err(ApiError::AlreadyExists),
            None => {
                self.todo_list.push(Todo { title, content });
                assert(self@ =~= old(self)@.push((title@, content@)));
                Ok(())
            },
        }
    }

    /// Removes every record titled `title`; the others keep their order.
    pub fn delete_by_title(&mut self, title: &String)
        ensures
            final(self)@ == deleted(old(self)@, title@),
    {
        let ghost c = self@;
        let mut kept: Vec<Todo> = Vec::new();
        let mut i: usize = 0;
        while i < self.todo_list.len()
            invariant
                0 <= i <= self.todo_list@.len(),
                self@ == c,
                kept@.map_values(|t: Todo| t@) == deleted(c.subrange(0, i as int), title@),
            decreases self.todo_list@.len() - i,
        {
            assert(c.subrange(0, i + 1) =~= c.subrange(0, i as int).push(c[i as int]));
            proof { lemma_deleted_push(c.subrange(0, i as int), c[i as int], title@); }
            if self.todo_list[i].title != *title {
                let rec = Todo {
                    title: self.todo_list[i].title.clone(),
                    content: self.todo_list[i].content.clone(),
                };
                kept.push(rec);
            }
            i = i + 1;
            assert(kept@.map_values(|t: Todo| t@) =~= deleted(c.subrange(0, i as int), title@));
        }
        assert(c.subrange(0, i as int) =~= c);
        self.todo_list = kept;
    }
}

} // verus!
