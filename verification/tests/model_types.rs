use terragen::app::{AntiAliasing, MenuTab};
use terragen::map::{Biome, BiomeMap, Landscape, MapCell};
use terragen::update_thread::Message;
use terragen::worldgen::{BiomesEditor, EditMap, HeightBrush, LandscapeView, MapType};

#[test]
fn biome_list_and_names() {
    let all = Biome::all();
    assert_eq!(all.len(), 10);
    assert_eq!(all[0].localized_name(), "Sea");
    assert_eq!(all[9].localized_name(), "Snowy mountain");
    assert_eq!(Biome::Forest.localized_name(), "Forest");
}

#[test]
fn biome_map_round_trip() {
    let cells: Vec<MapCell> = vec![(Biome::Sea, [None, None, None, None]); 6];
    let map_obj = BiomeMap::new((3, 2), cells.clone());
    let (size, back) = map_obj.disassemble();
    assert_eq!(size, (3, 2));
    assert_eq!(back.len(), cells.len());
}

#[test]
fn landscape_round_trip() {
    let l = Landscape::new((2, 2), vec![0, 1, 2, 3]);
    let (size, heights) = l.disassemble();
    assert_eq!(size, (2, 2));
    assert_eq!(heights, vec![0, 1, 2, 3]);
}

#[test]
fn edit_map_type() {
    let l = Landscape::new((2, 2), vec![0, 1, 2, 3]);
    assert_eq!(EditMap::Landscape(l).get_type(), MapType::Landscape);
    let b = BiomeMap::new((1, 1), vec![(Biome::Desert, [None, None, None, None])]);
    assert_eq!(EditMap::Biomes(b).get_type(), MapType::Biomes);
}

#[test]
fn menu_tab_labels() {
    assert_eq!(MenuTab::View.to_string(), "View");
    assert_eq!(MenuTab::Entity.to_string(), "Entity Info");
    assert_eq!(MenuTab::ProgramSettings.to_string(), "Program Settings");
}

#[test]
fn ui_enum_lists() {
    assert_eq!(MenuTab::all().len(), 5);
    let aa = AntiAliasing::all_values();
    assert_eq!(aa.len(), 7);
    assert_eq!(aa[0].sample_count(), 1);
    assert_eq!(aa[6].sample_count(), 16);
    assert_eq!(AntiAliasing::MSAAx2.sample_count(), 2);
    assert_eq!(LandscapeView::all().len(), 3);
    assert_eq!(LandscapeView::HeightColors.localized_name(), "Height (colors)");
    assert_eq!(HeightBrush::all().len(), 4);
    let _ = BiomesEditor::new();
    let msg = Message::LimitUPS(Some(3));
    assert!(matches!(msg, Message::LimitUPS(Some(3))));
}
