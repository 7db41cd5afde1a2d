//! A layer-4 load balancer core: the backend registry, its selection policies,
//! the adaptive policy switch, health-probe classification and the per-connection
//! dispatch decisions.

pub mod text;
pub mod endpoint;
pub mod policy;
pub mod health;
pub mod workers;
pub mod dispatch;
pub mod theorems;
