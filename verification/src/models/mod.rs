pub mod category;
pub mod task;
pub mod tree;
pub mod tree_laws;
pub mod tree_proofs;

pub use category::{Category, CreateCategoryInput, UpdateCategoryInput};
pub use task::{CreateTaskInput, Task, UpdateTaskInput};
pub use tree::{build_task_tree, TaskTree, TreeModel};
