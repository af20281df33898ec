pub mod bits;
pub mod iam_manager;
pub mod models;
pub mod order;
pub mod registry;
pub mod utils;

pub use registry::PermissionRegistry;

pub use utils::bits_to_permission_names;
pub use utils::find_next_available_bit;
pub use utils::permission_names_to_bits;

pub use iam_manager::IamManager;
pub use models::IamError;
pub use models::Permission;
pub use models::User;
