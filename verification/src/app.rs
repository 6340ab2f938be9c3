//! Control-panel model types consumed by the GUI layer.

use vstd::prelude::*;

verus! {

#[derive(Debug, Clone, Copy, PartialEq)]
pub enum MenuTab {
    View,
    Params,
    Entity,
    Stats,
    ProgramSettings,
}

impl MenuTab {
    pub open spec fn spec_label(self) -> Seq<char> {
        match self {
            MenuTab::View => "View"@,
            MenuTab::Params => "Params"@,
            MenuTab::Entity => "Entity Info"@,
            MenuTab::Stats => "Statistics"@,
            MenuTab::ProgramSettings => "Program Settings"@,
        }
    }

    /// The label a menu shows for this tab.
    pub fn to_string(&self) -> (r: String)
        ensures
            r@ == self.spec_label(),
    {
        let s: &str = match self {
            MenuTab::View => "View",
            MenuTab::Params => "Params",
            MenuTab::Entity => "Entity Info",
            MenuTab::Stats => "Statistics",
            MenuTab::ProgramSettings => "Program Settings",
        };
        s.to_owned()
    }

    pub fn all() -> (r: [MenuTab; 5])
        ensures
            r@ == seq![
                MenuTab::View,
                MenuTab::Params,
                MenuTab::Entity,
                MenuTab::Stats,
                MenuTab::ProgramSettings,
            ],
    {
        let r = [
            MenuTab::View,
            MenuTab::Params,
            MenuTab::Entity,
            MenuTab::Stats,
            MenuTab::ProgramSettings,
        ];
        proof {
            assert(r@ =~= seq![
                MenuTab::View,
                MenuTab::Params,
                MenuTab::Entity,
                MenuTab::Stats,
                MenuTab::ProgramSettings,
            ]);
        }
        r
    }
}

#[derive(Debug, Clone, Copy, PartialEq)]
pub enum AntiAliasing {
    MSAAx1,
    MSAAx2,
    MSAAx3,
    MSAAx4,
    MSAAx5,
    SSAAx9,
    SSAAx16,
}

impl AntiAliasing {
    /// The sample count a renderer configures for this mode.
    pub fn sample_count(&self) -> (r: u32)
        ensures
            r == match *self {
                AntiAliasing::MSAAx1 => 1u32,
                AntiAliasing::MSAAx2 => 2u32,
                AntiAliasing::MSAAx3 => 3u32,
                AntiAliasing::MSAAx4 => 4u32,
                AntiAliasing::MSAAx5 => 5u32,
                AntiAliasing::SSAAx9 => 9u32,
                AntiAliasing::SSAAx16 => 16u32,
            },
    {
        match self {
            AntiAliasing::MSAAx1 => 1,
            AntiAliasing::MSAAx2 => 2,
            AntiAliasing::MSAAx3 => 3,
            AntiAliasing::MSAAx4 => 4,
            AntiAliasing::MSAAx5 => 5,
            AntiAliasing::SSAAx9 => 9,
            AntiAliasing::SSAAx16 => 16,
        }
    }

    pub fn all_values() -> (r: [AntiAliasing; 7])
        ensures
            r@ == seq![
                AntiAliasing::MSAAx1,
                AntiAliasing::MSAAx2,
                AntiAliasing::MSAAx3,
                AntiAliasing::MSAAx4,
                AntiAliasing::MSAAx5,
                AntiAliasing::SSAAx9,
                AntiAliasing::SSAAx16,
            ],
    {
        let r = [
            AntiAliasing::MSAAx1,
            AntiAliasing::MSAAx2,
            AntiAliasing::MSAAx3,
            AntiAliasing::MSAAx4,
            AntiAliasing::MSAAx5,
            AntiAliasing::SSAAx9,
            AntiAliasing::SSAAx16,
        ];
        proof {
            assert(r@ =~= seq![
                AntiAliasing::MSAAx1,
                AntiAliasing::MSAAx2,
                AntiAliasing::MSAAx3,
                AntiAliasing::MSAAx4,
                AntiAliasing::MSAAx5,
                AntiAliasing::SSAAx9,
                AntiAliasing::SSAAx16,
            ]);
        }
        r
    }
}

} // verus!
