use vstd::prelude::*;

verus! {

/// A grouping node of the hierarchy. `parent_id` names another category, or is
/// absent for a root; siblings are shown in ascending `sort_order`.
#[derive(Debug)]
pub struct Category {
    pub id: String,
    pub name: String,
    pub created_at: String,
    pub updated_at: String,
    pub parent_id: Option<String>,
    pub sort_order: i32,
}

/// The mathematical value of a [`Category`]: every text as a sequence of
/// characters.
pub struct CategoryView {
    pub id: Seq<char>,
    pub name: Seq<char>,
    pub created_at: Seq<char>,
    pub updated_at: Seq<char>,
    pub parent_id: Option<Seq<char>>,
    pub sort_order: i32,
}

impl View for Category {
    type V = CategoryView;

    open spec fn view(&self) -> CategoryView {
        CategoryView {
            id: self.id@,
            name: self.name@,
            created_at: self.created_at@,
            updated_at: self.updated_at@,
            parent_id: match self.parent_id {
                Some(p) => Some(p@),
                None => None,
            },
            sort_order: self.sort_order,
        }
    }
}

impl DeepView for Category {
    type V = CategoryView;

    open spec fn deep_view(&self) -> CategoryView {
        self@
    }
}

impl Clone for Category {
    fn clone(&self) -> (res: Self)
        ensures
            res == *self,
    {
        Category {
            id: self.id.clone(),
            name: self.name.clone(),
            created_at: self.created_at.clone(),
            updated_at: self.updated_at.clone(),
            parent_id: match &self.parent_id {
                Some(p) => Some(p.clone()),
                None => None,
            },
            sort_order: self.sort_order,
        }
    }
}

/// A category placed in the forest, with the nodes of its children in display
/// order.
#[derive(Debug)]
pub struct CategoryTreeNode {
    pub category: Category,
    pub children: Vec<CategoryTreeNode>,
}

/// The mathematical value of a [`CategoryTreeNode`].
pub struct TreeNodeView {
    pub category: CategoryView,
    pub children: Seq<TreeNodeView>,
}

impl View for CategoryTreeNode {
    type V = TreeNodeView;

    open spec fn view(&self) -> TreeNodeView
        decreases self,
    {
        TreeNodeView {
            category: self.category@,
            children: Seq::new(
                self.children@.len(),
                |k: int|
                    if 0 <= k < self.children@.len() {
                        self.children@[k]@
                    } else {
                        arbitrary()
                    },
            ),
        }
    }
}

impl DeepView for CategoryTreeNode {
    type V = TreeNodeView;

    open spec fn deep_view(&self) -> TreeNodeView {
        self@
    }
}

/// The value of a node, one level down: the value of its category, and the
/// values of its children in their order.
pub proof fn lemma_node_view(node: CategoryTreeNode)
    ensures
        node@.category == node.category@,
        node@.children.len() == node.children@.len(),
        forall|m: int|
            0 <= m < node.children@.len() ==> #[trigger] node@.children[m] == node.children@[m]@,
{
    reveal_with_fuel(<CategoryTreeNode as View>::view, 2);
}

impl Clone for CategoryTreeNode {
    fn clone(&self) -> (res: Self)
        ensures
            res@ == self@,
        decreases self,
    {
        let mut children: Vec<CategoryTreeNode> = Vec::new();
        let mut k: usize = 0;
        while k < self.children.len()
            invariant
                k <= self.children.len(),
                children.len() == k,
                forall|m: int| 0 <= m < k ==> (#[trigger] children[m])@ == self.children[m]@,
            decreases self.children.len() - k,
        {
            children.push(self.children[k].clone());
            k += 1;
        }
        let res = CategoryTreeNode { category: self.category.clone(), children };
        proof {
            lemma_node_view(res);
            lemma_node_view(*self);
            assert(res@.children =~= self@.children);
        }
        res
    }
}

/// The whole forest, as handed to a caller.
#[derive(Debug)]
pub struct CategoryTree {
    pub roots: Vec<CategoryTreeNode>,
}

impl View for CategoryTree {
    type V = Seq<TreeNodeView>;

    open spec fn view(&self) -> Seq<TreeNodeView> {
        self.roots.deep_view()
    }
}

impl Clone for CategoryTree {
    fn clone(&self) -> (res: Self)
        ensures
            res@ == self@,
    {
        let mut roots: Vec<CategoryTreeNode> = Vec::new();
        let mut k: usize = 0;
        while k < self.roots.len()
            invariant
                k <= self.roots.len(),
                roots.len() == k,
                forall|m: int| 0 <= m < k ==> (#[trigger] roots[m])@ == self.roots[m]@,
            decreases self.roots.len() - k,
        {
            roots.push(self.roots[k].clone());
            k += 1;
        }
        let res = CategoryTree { roots };
        assert(res@ =~= self@);
        res
    }
}

/// Why an operation on the stored collections was refused. A refused
/// operation changes nothing.
#[derive(Debug, Clone, Copy, PartialEq, Eq, Structural)]
pub enum Rejection {
    /// No entry carries the identifier that was given.
    NotFound,
    /// The new parent is the category itself or one of its descendants.
    CycleRejected,
}

/// A content record that belongs to one category and counts how often it was
/// followed and how often violated.
#[derive(Debug)]
pub struct Rule {
    pub id: String,
    pub category_id: String,
    pub content: String,
    pub follow_count: u32,
    pub violate_count: u32,
    pub created_at: String,
    pub updated_at: String,
}

/// The mathematical value of a [`Rule`].
pub struct RuleView {
    pub id: Seq<char>,
    pub category_id: Seq<char>,
    pub content: Seq<char>,
    pub follow_count: u32,
    pub violate_count: u32,
    pub created_at: Seq<char>,
    pub updated_at: Seq<char>,
}

impl View for Rule {
    type V = RuleView;

    open spec fn view(&self) -> RuleView {
        RuleView {
            id: self.id@,
            category_id: self.category_id@,
            content: self.content@,
            follow_count: self.follow_count,
            violate_count: self.violate_count,
            created_at: self.created_at@,
            updated_at: self.updated_at@,
        }
    }
}

impl DeepView for Rule {
    type V = RuleView;

    open spec fn deep_view(&self) -> RuleView {
        self@
    }
}

impl Clone for Rule {
    fn clone(&self) -> (res: Self)
        ensures
            res == *self,
    {
        Rule {
            id: self.id.clone(),
            category_id: self.category_id.clone(),
            content: self.content.clone(),
            follow_count: self.follow_count,
            violate_count: self.violate_count,
            created_at: self.created_at.clone(),
            updated_at: self.updated_at.clone(),
        }
    }
}

/// One entry of the history of counter events: that a rule was followed or
/// violated at some time. Entries are only ever added.
#[derive(Debug)]
pub struct CountRecord {
    pub id: String,
    pub rule_id: String,
    pub record_type: String,
    pub timestamp: String,
    pub note: String,
}

/// The mathematical value of a [`CountRecord`].
pub struct CountRecordView {
    pub id: Seq<char>,
    pub rule_id: Seq<char>,
    pub record_type: Seq<char>,
    pub timestamp: Seq<char>,
    pub note: Seq<char>,
}

impl View for CountRecord {
    type V = CountRecordView;

    open spec fn view(&self) -> CountRecordView {
        CountRecordView {
            id: self.id@,
            rule_id: self.rule_id@,
            record_type: self.record_type@,
            timestamp: self.timestamp@,
            note: self.note@,
        }
    }
}

impl DeepView for CountRecord {
    type V = CountRecordView;

    open spec fn deep_view(&self) -> CountRecordView {
        self@
    }
}

impl Clone for CountRecord {
    fn clone(&self) -> (res: Self)
        ensures
            res == *self,
    {
        CountRecord {
            id: self.id.clone(),
            rule_id: self.rule_id.clone(),
            record_type: self.record_type.clone(),
            timestamp: self.timestamp.clone(),
            note: self.note.clone(),
        }
    }
}

/// What a caller supplies to create a category.
#[derive(Debug)]
pub struct CreateCategoryRequest {
    pub name: String,
    pub parent_id: Option<String>,
}

/// What a caller supplies to change a category: a new name, and where given, a
/// new parent and a new sort key.
#[derive(Debug)]
pub struct UpdateCategoryRequest {
    pub name: String,
    pub parent_id: Option<String>,
    pub sort_order: Option<i32>,
}

/// What a caller supplies to move a category: its new parent, absent to make
/// it a root, and its new sort key.
#[derive(Debug)]
pub struct MoveCategoryRequest {
    pub parent_id: Option<String>,
    pub sort_order: i32,
}

/// What a caller supplies to create a rule.
#[derive(Debug)]
pub struct CreateRuleRequest {
    pub category_id: String,
    pub content: String,
}

/// What a caller supplies to change a rule.
#[derive(Debug)]
pub struct UpdateRuleRequest {
    pub content: String,
}

} // verus!
