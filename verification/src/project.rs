//! A named cloud.

use vstd::prelude::*;
use crate::point_cloud::PointCloud;

verus! {

/// A cloud under the name of the project it belongs to.
pub struct Project {
    project_name: String,
    point_cloud: PointCloud,
}

impl Project {
    /// The name, as a sequence of characters.
    pub closed spec fn name(&self) -> Seq<char> {
        self.project_name@
    }

    /// The points of the project's cloud.
    pub closed spec fn cloud_points(&self) -> Seq<crate::point3d::Point3D> {
        self.point_cloud@
    }

    pub fn new(project_name: String, point_cloud: PointCloud) -> (project: Project)
        ensures
            project.name() == project_name@,
            project.cloud_points() == point_cloud@,
    {
        Project { project_name, point_cloud }
    }

    /// The project's name.
    pub fn project_name(&self) -> (name: &String)
        ensures
            name@ == self.name(),
    {
        &self.project_name
    }

    /// The project's cloud.
    pub fn point_cloud(&self) -> (cloud: &PointCloud)
        ensures
            cloud@ == self.cloud_points(),
    {
        &self.point_cloud
    }
}

} // verus!
